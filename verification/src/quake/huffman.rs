//! The prefix code of Quake 3 messages.
//!
//! The code grows as bytes are counted: each count makes a byte's node heavier, and
//! before a node gets heavier it changes places with the last node of its weight, so
//! that nodes stay ordered by weight. Both ends grow it from the same counts.
use crate::bits::{bit_at, countable, get_bit};
use vstd::prelude::*;

verus! {

/// A node: its children, its parent, its weight, and its byte if it has no
/// children. The node of bytes that were not counted yet has 256 for its byte.
#[derive(Debug, Clone, Copy)]
pub struct Node {
    pub kids: Option<(usize, usize)>,
    pub parent: Option<usize>,
    pub weight: u64,
    pub symbol: u16,
}

pub const UNCOUNTED: u16 = 256;

/// A growing code: its nodes, their order by weight, the root, and the nodes of the
/// bytes.
#[verifier::ext_equal]
pub struct Code {
    pub nodes: Seq<Node>,
    pub order: Seq<usize>,
    pub root: usize,
    pub loc: Seq<Option<usize>>,
}

/// The place of the last node of the weight that the node at place `i` has.
pub open spec fn leader(c: Code, i: int) -> int
    decreases c.order.len() - i,
{
    if 0 <= i && i + 1 < c.order.len() && c.nodes[c.order[i + 1] as int].weight
        == c.nodes[c.order[i] as int].weight {
        leader(c, i + 1)
    } else {
        i
    }
}

/// The nodes with `to` in place of `from` under a parent.
pub open spec fn relinked(nodes: Seq<Node>, parent: usize, from: usize, to: usize) -> Seq<Node> {
    let p = nodes[parent as int];
    match p.kids {
        Some((l, r)) => nodes.update(
            parent as int,
            Node {
                kids: if l == from {
                    Some((to, r))
                } else {
                    Some((l, to))
                },
                ..p
            },
        ),
        None => nodes,
    }
}

/// The code with `to` in place of `from`: under its parent, or as the root.
pub open spec fn replaced(c: Code, parent: Option<usize>, from: usize, to: usize) -> Code {
    match parent {
        Some(p) => Code { nodes: relinked(c.nodes, p, from, to), ..c },
        None => Code { root: to, ..c },
    }
}

pub open spec fn with_parent(c: Code, n: usize, parent: Option<usize>) -> Code {
    Code { nodes: c.nodes.update(n as int, Node { parent, ..c.nodes[n as int] }), ..c }
}

/// Two nodes change places in the tree: the first takes the place of the second,
/// and then the second that of the first.
pub open spec fn swapped(c: Code, a: usize, b: usize) -> Code {
    let pa = c.nodes[a as int].parent;
    let pb = c.nodes[b as int].parent;
    let c = replaced(replaced(c, pa, a, b), pb, b, a);
    with_parent(with_parent(c, a, pb), b, pa)
}

/// Two nodes change places in the order.
pub open spec fn reordered(c: Code, i: int, j: int) -> Code {
    Code { order: c.order.update(i, c.order[j]).update(j, c.order[i]), ..c }
}

/// The node at place `i` moves to the last place of its weight; what stood there
/// takes its place, in the tree too unless it is the node's parent.
pub open spec fn promoted(c: Code, node: usize) -> Code {
    let i = c.order.index_of(node);
    let l = leader(c, i);
    if l > i {
        let other = c.order[l];
        reordered(
            if c.nodes[node as int].parent != Some(other) {
                swapped(c, other, node)
            } else {
                c
            },
            l,
            i,
        )
    } else {
        c
    }
}

pub open spec fn heavier(c: Code, node: usize) -> Code {
    let n = c.nodes[node as int];
    Code {
        nodes: c.nodes.update(
            node as int,
            Node {
                weight: if n.weight < u64::MAX {
                    (n.weight + 1) as u64
                } else {
                    n.weight
                },
                ..n
            },
        ),
        ..c
    }
}

/// A node that its parent stands right before in the order goes before it.
pub open spec fn settled(c: Code, node: usize, parent: usize) -> Code {
    let j = c.order.index_of(node);
    if j > 0 && c.order[j - 1] == parent {
        reordered(c, j - 1, j)
    } else {
        c
    }
}

/// The code after a node and, on the way to the root, at most `steps` nodes in all
/// have got heavier.
pub open spec fn raised(c: Code, node: usize, steps: int) -> Code
    decreases steps,
{
    if steps <= 0 {
        c
    } else {
        let c = heavier(promoted(c, node), node);
        match c.nodes[node as int].parent {
            Some(p) => settled(raised(c, p, steps - 1), node, p),
            None => c,
        }
    }
}

/// The code with a node for a byte that was not counted yet: the node of uncounted
/// bytes gets a parent, and under it the new node for a sibling.
pub open spec fn sprouted(c: Code, b: u8) -> Code {
    let leaf = c.nodes.len() as usize;
    let fork = (leaf + 1) as usize;
    let up = c.nodes[0].parent;
    let d = replaced(c, up, 0, fork);
    let first = Node { parent: Some(fork), ..d.nodes[0] };
    Code {
        nodes: d.nodes.update(0, first).push(
            Node { kids: None, parent: Some(fork), weight: 1, symbol: b as u16 },
        ).push(Node { kids: Some((0, leaf)), parent: up, weight: 1, symbol: 0 }),
        order: d.order.insert(1, fork).insert(1, leaf),
        root: d.root,
        loc: d.loc.update(b as int, Some(leaf)),
    }
}

/// The code after a byte is counted once more.
pub open spec fn counted(c: Code, b: u8) -> Code {
    match c.loc[b as int] {
        Some(n) => raised(c, n, c.nodes.len() as int),
        None => {
            let d = sprouted(c, b);
            match c.nodes[0].parent {
                Some(p) => raised(d, p, d.nodes.len() as int),
                None => d,
            }
        },
    }
}

/// The code after a byte is counted `n` times.
pub open spec fn counted_times(c: Code, b: u8, n: int) -> Code
    decreases n,
{
    if n <= 0 {
        c
    } else {
        counted(counted_times(c, b, n - 1), b)
    }
}

/// The code before anything is counted.
pub open spec fn bare() -> Code {
    Code {
        nodes: seq![Node { kids: None, parent: None, weight: 0, symbol: UNCOUNTED }],
        order: seq![0usize],
        root: 0,
        loc: Seq::new(256, |i: int| None::<usize>),
    }
}

/// How often each byte is counted.
pub open spec fn frequency(b: u8) -> int {
    match b {
        0 => 250315,
        1 => 41193,
        2 => 6292,
        3 => 7106,
        4 => 3730,
        5 => 3750,
        6 => 6110,
        7 => 23283,
        8 => 33317,
        9 => 6950,
        10 => 7838,
        11 => 9714,
        12 => 9257,
        13 => 17259,
        14 => 3949,
        15 => 1778,
        16 => 8288,
        17 => 1604,
        18 => 1590,
        19 => 1663,
        20 => 1100,
        21 => 1213,
        22 => 1238,
        23 => 1134,
        24 => 1749,
        25 => 1059,
        26 => 1246,
        27 => 1149,
        28 => 1273,
        29 => 4486,
        30 => 2805,
        31 => 3472,
        32 => 21819,
        33 => 1159,
        34 => 1670,
        35 => 1066,
        36 => 1043,
        37 => 1012,
        38 => 1053,
        39 => 1070,
        40 => 1726,
        41 => 888,
        42 => 1180,
        43 => 850,
        44 => 960,
        45 => 780,
        46 => 1752,
        47 => 3296,
        48 => 10630,
        49 => 4514,
        50 => 5881,
        51 => 2685,
        52 => 4650,
        53 => 3837,
        54 => 2093,
        55 => 1867,
        56 => 2584,
        57 => 1949,
        58 => 1972,
        59 => 940,
        60 => 1134,
        61 => 1788,
        62 => 1670,
        63 => 1206,
        64 => 5719,
        65 => 6128,
        66 => 7222,
        67 => 6654,
        68 => 3710,
        69 => 3795,
        70 => 1492,
        71 => 1524,
        72 => 2215,
        73 => 1140,
        74 => 1355,
        75 => 971,
        76 => 2180,
        77 => 1248,
        78 => 1328,
        79 => 1195,
        80 => 1770,
        81 => 1078,
        82 => 1264,
        83 => 1266,
        84 => 1168,
        85 => 965,
        86 => 1155,
        87 => 1186,
        88 => 1347,
        89 => 1228,
        90 => 1529,
        91 => 1600,
        92 => 2617,
        93 => 2048,
        94 => 2546,
        95 => 3275,
        96 => 2410,
        97 => 3585,
        98 => 2504,
        99 => 2800,
        100 => 2675,
        101 => 6146,
        102 => 3663,
        103 => 2840,
        104 => 14253,
        105 => 3164,
        106 => 2221,
        107 => 1687,
        108 => 3208,
        109 => 2739,
        110 => 3512,
        111 => 4796,
        112 => 4091,
        113 => 3515,
        114 => 5288,
        115 => 4016,
        116 => 7937,
        117 => 6031,
        118 => 5360,
        119 => 3924,
        120 => 4892,
        121 => 3743,
        122 => 4566,
        123 => 4807,
        124 => 5852,
        125 => 6400,
        126 => 6225,
        127 => 8291,
        128 => 23243,
        129 => 7838,
        130 => 7073,
        131 => 8935,
        132 => 5437,
        133 => 4483,
        134 => 3641,
        135 => 5256,
        136 => 5312,
        137 => 5328,
        138 => 5370,
        139 => 3492,
        140 => 2458,
        141 => 1694,
        142 => 1821,
        143 => 2121,
        144 => 1916,
        145 => 1149,
        146 => 1516,
        147 => 1367,
        148 => 1236,
        149 => 1029,
        150 => 1258,
        151 => 1104,
        152 => 1245,
        153 => 1006,
        154 => 1149,
        155 => 1025,
        156 => 1241,
        157 => 952,
        158 => 1287,
        159 => 997,
        160 => 1713,
        161 => 1009,
        162 => 1187,
        163 => 879,
        164 => 1099,
        165 => 929,
        166 => 1078,
        167 => 951,
        168 => 1656,
        169 => 930,
        170 => 1153,
        171 => 1030,
        172 => 1262,
        173 => 1062,
        174 => 1214,
        175 => 1060,
        176 => 1621,
        177 => 930,
        178 => 1106,
        179 => 912,
        180 => 1034,
        181 => 892,
        182 => 1158,
        183 => 990,
        184 => 1175,
        185 => 850,
        186 => 1121,
        187 => 903,
        188 => 1087,
        189 => 920,
        190 => 1144,
        191 => 1056,
        192 => 3462,
        193 => 2240,
        194 => 4397,
        195 => 12136,
        196 => 7758,
        197 => 1345,
        198 => 1307,
        199 => 3278,
        200 => 1950,
        201 => 886,
        202 => 1023,
        203 => 1112,
        204 => 1077,
        205 => 1042,
        206 => 1061,
        207 => 1071,
        208 => 1484,
        209 => 1001,
        210 => 1096,
        211 => 915,
        212 => 1052,
        213 => 995,
        214 => 1070,
        215 => 876,
        216 => 1111,
        217 => 851,
        218 => 1059,
        219 => 805,
        220 => 1112,
        221 => 923,
        222 => 1103,
        223 => 817,
        224 => 1899,
        225 => 1872,
        226 => 976,
        227 => 841,
        228 => 1127,
        229 => 956,
        230 => 1159,
        231 => 950,
        232 => 7791,
        233 => 954,
        234 => 1289,
        235 => 933,
        236 => 1127,
        237 => 3207,
        238 => 1020,
        239 => 927,
        240 => 1355,
        241 => 768,
        242 => 1040,
        243 => 745,
        244 => 952,
        245 => 805,
        246 => 1073,
        247 => 740,
        248 => 1013,
        249 => 805,
        250 => 1008,
        251 => 796,
        252 => 996,
        253 => 1057,
        254 => 11457,
        255 => 13504,
    }
}

/// The code after the bytes below `n` are counted as often as they should be.
pub open spec fn grown(n: int) -> Code
    decreases n,
{
    if n <= 0 {
        bare()
    } else {
        counted_times(grown(n - 1), (n - 1) as u8, frequency((n - 1) as u8))
    }
}

fn count_of(b: u8) -> (n: u32)
    ensures
        n == frequency(b),
{
    match b {
        0 => 250315,
        1 => 41193,
        2 => 6292,
        3 => 7106,
        4 => 3730,
        5 => 3750,
        6 => 6110,
        7 => 23283,
        8 => 33317,
        9 => 6950,
        10 => 7838,
        11 => 9714,
        12 => 9257,
        13 => 17259,
        14 => 3949,
        15 => 1778,
        16 => 8288,
        17 => 1604,
        18 => 1590,
        19 => 1663,
        20 => 1100,
        21 => 1213,
        22 => 1238,
        23 => 1134,
        24 => 1749,
        25 => 1059,
        26 => 1246,
        27 => 1149,
        28 => 1273,
        29 => 4486,
        30 => 2805,
        31 => 3472,
        32 => 21819,
        33 => 1159,
        34 => 1670,
        35 => 1066,
        36 => 1043,
        37 => 1012,
        38 => 1053,
        39 => 1070,
        40 => 1726,
        41 => 888,
        42 => 1180,
        43 => 850,
        44 => 960,
        45 => 780,
        46 => 1752,
        47 => 3296,
        48 => 10630,
        49 => 4514,
        50 => 5881,
        51 => 2685,
        52 => 4650,
        53 => 3837,
        54 => 2093,
        55 => 1867,
        56 => 2584,
        57 => 1949,
        58 => 1972,
        59 => 940,
        60 => 1134,
        61 => 1788,
        62 => 1670,
        63 => 1206,
        64 => 5719,
        65 => 6128,
        66 => 7222,
        67 => 6654,
        68 => 3710,
        69 => 3795,
        70 => 1492,
        71 => 1524,
        72 => 2215,
        73 => 1140,
        74 => 1355,
        75 => 971,
        76 => 2180,
        77 => 1248,
        78 => 1328,
        79 => 1195,
        80 => 1770,
        81 => 1078,
        82 => 1264,
        83 => 1266,
        84 => 1168,
        85 => 965,
        86 => 1155,
        87 => 1186,
        88 => 1347,
        89 => 1228,
        90 => 1529,
        91 => 1600,
        92 => 2617,
        93 => 2048,
        94 => 2546,
        95 => 3275,
        96 => 2410,
        97 => 3585,
        98 => 2504,
        99 => 2800,
        100 => 2675,
        101 => 6146,
        102 => 3663,
        103 => 2840,
        104 => 14253,
        105 => 3164,
        106 => 2221,
        107 => 1687,
        108 => 3208,
        109 => 2739,
        110 => 3512,
        111 => 4796,
        112 => 4091,
        113 => 3515,
        114 => 5288,
        115 => 4016,
        116 => 7937,
        117 => 6031,
        118 => 5360,
        119 => 3924,
        120 => 4892,
        121 => 3743,
        122 => 4566,
        123 => 4807,
        124 => 5852,
        125 => 6400,
        126 => 6225,
        127 => 8291,
        128 => 23243,
        129 => 7838,
        130 => 7073,
        131 => 8935,
        132 => 5437,
        133 => 4483,
        134 => 3641,
        135 => 5256,
        136 => 5312,
        137 => 5328,
        138 => 5370,
        139 => 3492,
        140 => 2458,
        141 => 1694,
        142 => 1821,
        143 => 2121,
        144 => 1916,
        145 => 1149,
        146 => 1516,
        147 => 1367,
        148 => 1236,
        149 => 1029,
        150 => 1258,
        151 => 1104,
        152 => 1245,
        153 => 1006,
        154 => 1149,
        155 => 1025,
        156 => 1241,
        157 => 952,
        158 => 1287,
        159 => 997,
        160 => 1713,
        161 => 1009,
        162 => 1187,
        163 => 879,
        164 => 1099,
        165 => 929,
        166 => 1078,
        167 => 951,
        168 => 1656,
        169 => 930,
        170 => 1153,
        171 => 1030,
        172 => 1262,
        173 => 1062,
        174 => 1214,
        175 => 1060,
        176 => 1621,
        177 => 930,
        178 => 1106,
        179 => 912,
        180 => 1034,
        181 => 892,
        182 => 1158,
        183 => 990,
        184 => 1175,
        185 => 850,
        186 => 1121,
        187 => 903,
        188 => 1087,
        189 => 920,
        190 => 1144,
        191 => 1056,
        192 => 3462,
        193 => 2240,
        194 => 4397,
        195 => 12136,
        196 => 7758,
        197 => 1345,
        198 => 1307,
        199 => 3278,
        200 => 1950,
        201 => 886,
        202 => 1023,
        203 => 1112,
        204 => 1077,
        205 => 1042,
        206 => 1061,
        207 => 1071,
        208 => 1484,
        209 => 1001,
        210 => 1096,
        211 => 915,
        212 => 1052,
        213 => 995,
        214 => 1070,
        215 => 876,
        216 => 1111,
        217 => 851,
        218 => 1059,
        219 => 805,
        220 => 1112,
        221 => 923,
        222 => 1103,
        223 => 817,
        224 => 1899,
        225 => 1872,
        226 => 976,
        227 => 841,
        228 => 1127,
        229 => 956,
        230 => 1159,
        231 => 950,
        232 => 7791,
        233 => 954,
        234 => 1289,
        235 => 933,
        236 => 1127,
        237 => 3207,
        238 => 1020,
        239 => 927,
        240 => 1355,
        241 => 768,
        242 => 1040,
        243 => 745,
        244 => 952,
        245 => 805,
        246 => 1073,
        247 => 740,
        248 => 1013,
        249 => 805,
        250 => 1008,
        251 => 796,
        252 => 996,
        253 => 1057,
        254 => 11457,
        255 => 13504,
    }
}

/// A code while it grows, with the place of each node in the order.
pub struct Huff {
    nodes: Vec<Node>,
    order: Vec<usize>,
    rank: Vec<usize>,
    root: usize,
    loc: Vec<Option<usize>>,
}

pub open spec fn link_ok(l: Option<usize>, n: int) -> bool {
    l matches Some(x) ==> x < n
}

pub open spec fn node_ok(x: Node, n: int) -> bool {
    &&& link_ok(x.parent, n)
    &&& x.kids matches Some((l, r)) ==> l < n && r < n
    &&& x.symbol <= UNCOUNTED
}

/// Links lead to nodes, and the order holds each node once.
pub open spec fn code_ok(c: Code) -> bool {
    let n = c.nodes.len() as int;
    &&& 1 <= n
    &&& n == c.order.len()
    &&& c.root < n
    &&& c.loc.len() == 256
    &&& forall|i: int| 0 <= i < n ==> node_ok(#[trigger] c.nodes[i], n)
    &&& forall|i: int| 0 <= i < n ==> (#[trigger] c.order[i]) < n
    &&& forall|i: int, j: int| 0 <= i < j < n ==> c.order[i] != c.order[j]
    &&& forall|i: int| 0 <= i < 256 ==> link_ok(#[trigger] c.loc[i], n)
}

/// The ranks invert the order.
pub open spec fn ranks_ok(order: Seq<usize>, rank: Seq<usize>) -> bool {
    &&& rank.len() == order.len()
    &&& forall|x: int|
        0 <= x < rank.len() ==> (#[trigger] rank[x]) < order.len() && order[rank[x] as int] == x
}

impl Huff {
    pub closed spec fn view(&self) -> Code {
        Code { nodes: self.nodes@, order: self.order@, root: self.root, loc: self.loc@ }
    }

    pub closed spec fn wf(&self) -> bool {
        code_ok(self@) && ranks_ok(self.order@, self.rank@)
    }

    pub proof fn lemma_byte(&self, d: Seq<u8>, bit: int)
        requires
            self.wf(),
        ensures
            0 <= received(self@, d, bit, self@.root).0 <= UNCOUNTED,
    {
        lemma_received(self@, d, bit, self@.root);
    }

    proof fn lemma_rank(&self, x: usize)
        requires
            self.wf(),
            x < self@.nodes.len(),
        ensures
            self@.order.index_of(x) == self.rank@[x as int],
            self.rank@[x as int] < self@.order.len(),
            self@.order[self.rank@[x as int] as int] == x,
    {
        let r = self.rank@[x as int] as int;
        assert(self@.order[r] == x);
        let i = self@.order.index_of(x);
        assert(self@.order.contains(x));
        assert(0 <= i < self@.order.len() && self@.order[i] == x);
        if i < r {
            assert(self@.order[i] != self@.order[r]);
        }
        if r < i {
            assert(self@.order[r] != self@.order[i]);
        }
    }

    fn find_leader(&self, i: usize) -> (l: usize)
        requires
            self.wf(),
            i < self@.order.len(),
        ensures
            l == leader(self@, i as int),
            i <= l < self@.order.len(),
    {
        let mut l: usize = i;
        while self.order.len() - l > 1 && self.nodes[self.order[l + 1]].weight
            == self.nodes[self.order[l]].weight
            invariant
                self.wf(),
                i <= l < self@.order.len(),
                leader(self@, i as int) == leader(self@, l as int),
            decreases self@.order.len() - l,
        {
            l = l + 1;
        }
        l
    }

    fn replace(&mut self, parent: Option<usize>, from: usize, to: usize)
        requires
            old(self).wf(),
            link_ok(parent, old(self)@.nodes.len() as int),
            to < old(self)@.nodes.len(),
        ensures
            final(self).wf(),
            final(self)@ == replaced(old(self)@, parent, from, to),
            final(self)@.nodes.len() == old(self)@.nodes.len(),
    {
        match parent {
            Some(p) => {
                let x = self.nodes[p];
                match x.kids {
                    Some((l, r)) => {
                        let kids = if l == from {
                            Some((to, r))
                        } else {
                            Some((l, to))
                        };
                        self.nodes.set(p, Node { kids, ..x });
                    },
                    None => {},
                }
            },
            None => {
                self.root = to;
            },
        }
    }

    fn set_parent(&mut self, n: usize, parent: Option<usize>)
        requires
            old(self).wf(),
            n < old(self)@.nodes.len(),
            link_ok(parent, old(self)@.nodes.len() as int),
        ensures
            final(self).wf(),
            final(self)@ == with_parent(old(self)@, n, parent),
            final(self)@.nodes.len() == old(self)@.nodes.len(),
    {
        let x = self.nodes[n];
        self.nodes.set(n, Node { parent, ..x });
    }

    fn swap(&mut self, a: usize, b: usize)
        requires
            old(self).wf(),
            a < old(self)@.nodes.len(),
            b < old(self)@.nodes.len(),
        ensures
            final(self).wf(),
            final(self)@ == swapped(old(self)@, a, b),
            final(self)@.nodes.len() == old(self)@.nodes.len(),
    {
        let pa = self.nodes[a].parent;
        let pb = self.nodes[b].parent;
        assert(node_ok(self@.nodes[a as int], self@.nodes.len() as int));
        assert(node_ok(self@.nodes[b as int], self@.nodes.len() as int));
        self.replace(pa, a, b);
        self.replace(pb, b, a);
        self.set_parent(a, pb);
        self.set_parent(b, pa);
    }

    fn swaplist(&mut self, i: usize, j: usize)
        requires
            old(self).wf(),
            i < old(self)@.order.len(),
            j < old(self)@.order.len(),
            i != j,
        ensures
            final(self).wf(),
            final(self)@ == reordered(old(self)@, i as int, j as int),
            final(self)@.nodes.len() == old(self)@.nodes.len(),
    {
        let ghost o = self.order@;
        let ghost r = self.rank@;
        let x: usize = self.order[i];
        let y: usize = self.order[j];
        proof {
            assert(x < r.len() && y < r.len());
            self.lemma_rank(x);
            self.lemma_rank(y);
            if i < j {
                assert(o[i as int] != o[j as int]);
            } else {
                assert(o[j as int] != o[i as int]);
            }
        }
        self.order.set(i, y);
        self.order.set(j, x);
        self.rank.set(x, j);
        self.rank.set(y, i);
        proof {
            assert forall|z: int| 0 <= z < self.rank@.len() implies (#[trigger] self.rank@[z])
                < self.order@.len() && self.order@[self.rank@[z] as int] == z by {
                assert(r[z] < o.len() && o[r[z] as int] == z);
                if z != x && z != y {
                    assert(r[z] != i && r[z] != j);
                }
            }
        }
    }

    fn promote(&mut self, node: usize)
        requires
            old(self).wf(),
            node < old(self)@.nodes.len(),
        ensures
            final(self).wf(),
            final(self)@ == promoted(old(self)@, node),
            final(self)@.nodes.len() == old(self)@.nodes.len(),
    {
        proof {
            self.lemma_rank(node);
        }
        let i: usize = self.rank[node];
        let l: usize = self.find_leader(i);
        if l > i {
            let other: usize = self.order[l];
            assert(node_ok(self@.nodes[node as int], self@.nodes.len() as int));
            let apart = match self.nodes[node].parent {
                Some(p) => p != other,
                None => true,
            };
            if apart {
                self.swap(other, node);
            }
            self.swaplist(l, i);
        }
    }

    fn increment(&mut self, node: usize, steps: usize)
        requires
            old(self).wf(),
            node < old(self)@.nodes.len(),
        ensures
            final(self).wf(),
            final(self)@ == raised(old(self)@, node, steps as int),
            final(self)@.nodes.len() == old(self)@.nodes.len(),
        decreases steps,
    {
        if steps == 0 {
            return ;
        }
        self.promote(node);
        let x = self.nodes[node];
        assert(node_ok(x, self@.nodes.len() as int));
        let weight: u64 = if x.weight < u64::MAX {
            x.weight + 1
        } else {
            x.weight
        };
        self.nodes.set(node, Node { weight, ..x });
        match x.parent {
            Some(p) => {
                self.increment(p, steps - 1);
                proof {
                    self.lemma_rank(node);
                }
                let j: usize = self.rank[node];
                if j > 0 && self.order[j - 1] == p {
                    self.swaplist(j - 1, j);
                }
            },
            None => {},
        }
    }

    /// Puts the two newest nodes behind the first in the order.
    fn place_new(&mut self, leaf: usize, fork: usize)
        requires
            old(self).order@.len() >= 1,
            old(self).order@.len() == leaf,
            fork == leaf + 1,
            old(self).order@.len() + 2 <= usize::MAX,
            ranks_ok(old(self).order@, old(self).rank@),
            forall|i: int| 0 <= i < leaf ==> (#[trigger] old(self).order@[i]) < leaf,
            forall|i: int, j: int|
                0 <= i < j < leaf ==> old(self).order@[i] != old(self).order@[j],
        ensures
            final(self).order@ == old(self).order@.insert(1, fork).insert(1, leaf),
            ranks_ok(final(self).order@, final(self).rank@),
            final(self).nodes == old(self).nodes,
            final(self).root == old(self).root,
            final(self).loc == old(self).loc,
    {
        let ghost o = self.order@;
        let ghost r = self.rank@;
        self.order.insert(1, fork);
        self.order.insert(1, leaf);
        let mut x: usize = 0;
        while x < leaf
            invariant
                x <= leaf,
                leaf == o.len(),
                leaf == r.len(),
                leaf + 2 <= usize::MAX,
                self.rank@.len() == leaf,
                ranks_ok(o, r),
                self.order@ == o.insert(1, fork).insert(1, leaf),
                self.nodes == old(self).nodes,
                self.root == old(self).root,
                self.loc == old(self).loc,
                forall|z: int|
                    0 <= z < leaf ==> (#[trigger] self.rank@[z]) == if z < x && r[z] >= 1 {
                        r[z] + 2
                    } else {
                        r[z] as int
                    },
            decreases leaf - x,
        {
            let k: usize = self.rank[x];
            assert(r[x as int] < o.len());
            if k >= 1 {
                self.rank.set(x, k + 2);
            }
            x += 1;
        }
        self.rank.push(1);
        self.rank.push(2);
        proof {
            assert forall|z: int| 0 <= z < self.rank@.len() implies (#[trigger] self.rank@[z])
                < self.order@.len() && self.order@[self.rank@[z] as int] == z by {
                if z < leaf {
                    assert(r[z] < o.len() && o[r[z] as int] == z);
                }
            }
        }
    }

    /// Counts a byte once more.
    pub fn add_ref(&mut self, b: u8)
        requires
            old(self).wf(),
            old(self)@.nodes.len() + 2 <= usize::MAX,
        ensures
            final(self).wf(),
            final(self)@ == counted(old(self)@, b),
            final(self)@.nodes.len() <= old(self)@.nodes.len() + 2,
            old(self)@.loc[b as int] is Some ==> final(self)@.nodes.len()
                == old(self)@.nodes.len(),
    {
        match self.loc[b as usize] {
            Some(n) => {
                assert(link_ok(self@.loc[b as int], self@.nodes.len() as int));
                let steps: usize = self.nodes.len();
                self.increment(n, steps);
            },
            None => {
                let ghost c = self@;
                let leaf: usize = self.nodes.len();
                let fork: usize = leaf + 1;
                let up = self.nodes[0].parent;
                assert(node_ok(c.nodes[0], leaf as int));
                match up {
                    Some(p) => {
                        let x = self.nodes[p];
                        assert(node_ok(x, leaf as int));
                        match x.kids {
                            Some((l, r)) => {
                                let kids = if l == 0 {
                                    Some((fork, r))
                                } else {
                                    Some((l, fork))
                                };
                                self.nodes.set(p, Node { kids, ..x });
                            },
                            None => {},
                        }
                    },
                    None => {
                        self.root = fork;
                    },
                }
                let first = self.nodes[0];
                self.nodes.set(0, Node { parent: Some(fork), ..first });
                self.nodes.push(
                    Node { kids: None, parent: Some(fork), weight: 1, symbol: b as u16 },
                );
                self.nodes.push(
                    Node { kids: Some((0, leaf)), parent: up, weight: 1, symbol: 0 },
                );
                self.place_new(leaf, fork);
                self.loc.set(b as usize, Some(leaf));
                proof {
                    lemma_sprouted_ok(c, b);
                    assert(self@ =~= sprouted(c, b));
                }
                match up {
                    Some(p) => {
                        let steps: usize = self.nodes.len();
                        self.increment(p, steps);
                    },
                    None => {},
                }
            },
        }
    }

    /// The code before anything is counted.
    fn bare() -> (h: Huff)
        ensures
            h.wf(),
            h@ == bare(),
    {
        let mut nodes: Vec<Node> = Vec::new();
        nodes.push(Node { kids: None, parent: None, weight: 0, symbol: UNCOUNTED });
        let mut order: Vec<usize> = Vec::new();
        order.push(0);
        let mut rank: Vec<usize> = Vec::new();
        rank.push(0);
        let mut loc: Vec<Option<usize>> = Vec::new();
        let mut i: usize = 0;
        while i < 256
            invariant
                i <= 256,
                loc@ =~= Seq::new(i as nat, |k: int| None::<usize>),
            decreases 256 - i,
        {
            loc.push(None);
            i += 1;
        }
        let h = Huff { nodes, order, rank, root: 0, loc };
        assert(h@ =~= bare());
        h
    }

    /// The code of Quake 3.
    pub fn build() -> (h: Huff)
        ensures
            h.wf(),
            h@ == grown(256),
    {
        let mut h = Huff::bare();
        let mut s: u16 = 0;
        while s < 256
            invariant
                s <= 256,
                h.wf(),
                h@ == grown(s as int),
                h@.nodes.len() <= 1 + 2 * s,
                forall|b: int| s <= b < 256 ==> (#[trigger] h@.loc[b]) is None,
            decreases 256 - s,
        {
            let b: u8 = s as u8;
            let n: u32 = count_of(b);
            let ghost c = h@;
            let mut k: u32 = 0;
            while k < n
                invariant
                    b == s < 256,
                    k <= n,
                    h.wf(),
                    h@ == counted_times(c, b, k as int),
                    c.nodes.len() <= 1 + 2 * s,
                    k == 0 ==> h@ == c,
                    h@.nodes.len() <= 3 + 2 * s,
                    k > 0 ==> h@.loc[b as int] is Some,
                    forall|x: int| s < x < 256 ==> (#[trigger] h@.loc[x]) is None,
                decreases n - k,
            {
                proof {
                    lemma_counted_loc(h@, b);
                }
                h.add_ref(b);
                k += 1;
            }
            s += 1;
        }
        h
    }

    /// The byte whose code starts at a bit, and the bit behind it. Where the code is
    /// cut off the byte is zero and the bit is one past the end.
    pub fn offset_receive(&self, data: &[u8], bit: u64, end: u64) -> (r: (u16, u64))
        requires
            self.wf(),
            countable(data@),
            end == 8 * data.len(),
            bit <= end + 1,
        ensures
            (r.0 as int, r.1 as int) == received(self@, data@, bit as int, self@.root),
            r.0 <= UNCOUNTED,
            r.1 >= bit,
            r.1 <= end + 1,
    {
        let mut node: usize = self.root;
        let mut b: u64 = bit;
        loop
            invariant
                self.wf(),
                countable(data@),
                end == 8 * data.len(),
                bit <= b <= end + 1,
                node < self@.nodes.len(),
                received(self@, data@, bit as int, self@.root) == received(
                    self@,
                    data@,
                    b as int,
                    node,
                ),
            decreases end + 1 - b,
        {
            let x = self.nodes[node];
            assert(node_ok(x, self@.nodes.len() as int));
            match x.kids {
                None => {
                    return (x.symbol, b);
                },
                Some((l, r)) => {
                    if b >= end {
                        return (0, end + 1);
                    }
                    node = if get_bit(data, b) {
                        r
                    } else {
                        l
                    };
                    b = b + 1;
                },
            }
        }
    }
}

/// Following the bits from `bit` down from a node: the byte at the end and the bit
/// behind its code.
pub open spec fn received(c: Code, d: Seq<u8>, bit: int, node: usize) -> (int, int)
    decreases 8 * d.len() + 1 - bit,
{
    match c.nodes[node as int].kids {
        None => (c.nodes[node as int].symbol as int, bit),
        Some((l, r)) => if bit >= 8 * d.len() {
            (0, 8 * d.len() as int + 1)
        } else {
            received(
                c,
                d,
                bit + 1,
                if bit_at(d, bit) == 1 {
                    r
                } else {
                    l
                },
            )
        },
    }
}

/// A decoded byte is no larger than the mark of uncounted bytes.
proof fn lemma_received(c: Code, d: Seq<u8>, bit: int, node: usize)
    requires
        code_ok(c),
        node < c.nodes.len(),
    ensures
        0 <= received(c, d, bit, node).0 <= UNCOUNTED,
    decreases 8 * d.len() + 1 - bit,
{
    assert(node_ok(c.nodes[node as int], c.nodes.len() as int));
    match c.nodes[node as int].kids {
        None => {},
        Some((l, r)) => if bit < 8 * d.len() {
            lemma_received(
                c,
                d,
                bit + 1,
                if bit_at(d, bit) == 1 {
                    r
                } else {
                    l
                },
            );
        },
    }
}

proof fn lemma_sprouted_ok(c: Code, b: u8)
    requires
        code_ok(c),
        c.nodes.len() + 2 <= usize::MAX,
    ensures
        code_ok(sprouted(c, b)),
{
    let s = sprouted(c, b);
    let n = s.nodes.len() as int;
    let m = c.nodes.len() as int;
    assert(node_ok(c.nodes[0], m));
    assert forall|i: int| 0 <= i < n implies node_ok(#[trigger] s.nodes[i], n) by {
        if i < m {
            assert(node_ok(c.nodes[i], m));
        }
    }
    assert forall|i: int| 0 <= i < n implies (#[trigger] s.order[i]) < n by {
        if i == 0 {
            assert(c.order[0] < m);
        } else if i >= 3 {
            assert(c.order[i - 2] < m);
        }
    }
    assert forall|i: int, j: int| 0 <= i < j < n implies s.order[i] != s.order[j] by {
        if i == 0 {
            assert(c.order[0] < m);
        } else if i >= 3 {
            assert(c.order[i - 2] < m);
        }
        if j >= 3 {
            assert(c.order[j - 2] < m);
        }
    }
    assert forall|i: int| 0 <= i < 256 implies link_ok(#[trigger] s.loc[i], n) by {
        assert(link_ok(c.loc[i], m));
    }
}

proof fn lemma_raised_loc(c: Code, node: usize, steps: int)
    ensures
        raised(c, node, steps).loc == c.loc,
    decreases steps,
{
    if steps > 0 {
        let d = heavier(promoted(c, node), node);
        assert(d.loc == c.loc);
        match d.nodes[node as int].parent {
            Some(p) => lemma_raised_loc(d, p, steps - 1),
            None => {},
        }
    }
}

/// Counting a byte gives it a node, and no other byte.
proof fn lemma_counted_loc(c: Code, b: u8)
    requires
        c.loc.len() == 256,
    ensures
        counted(c, b).loc[b as int] is Some,
        counted(c, b).loc.len() == 256,
        forall|x: int| 0 <= x < 256 && x != b ==> (#[trigger] counted(c, b).loc[x]) == c.loc[x],
{
    match c.loc[b as int] {
        Some(n) => lemma_raised_loc(c, n, c.nodes.len() as int),
        None => {
            let d = sprouted(c, b);
            match c.nodes[0].parent {
                Some(p) => lemma_raised_loc(d, p, d.nodes.len() as int),
                None => {},
            }
        },
    }
}

proof fn lemma_received_onward(c: Code, d: Seq<u8>, bit: int, node: usize)
    requires
        bit <= 8 * d.len() + 1,
    ensures
        received(c, d, bit, node).1 >= bit,
    decreases 8 * d.len() + 1 - bit,
{
    match c.nodes[node as int].kids {
        None => {},
        Some((l, r)) => if bit < 8 * d.len() {
            lemma_received_onward(
                c,
                d,
                bit + 1,
                if bit_at(d, bit) == 1 {
                    r
                } else {
                    l
                },
            );
        },
    }
}

/// A code says itself where it ends: what is received depends on the bits up to there,
/// and on none behind.
pub proof fn law_codes_end_themselves(c: Code, d: Seq<u8>, e: Seq<u8>, bit: int, node: usize)
    requires
        0 <= bit <= 8 * d.len() + 1,
        d.len() == e.len(),
        forall|i: int|
            bit <= i < received(c, d, bit, node).1 ==> #[trigger] bit_at(d, i) == bit_at(e, i),
    ensures
        received(c, e, bit, node) == received(c, d, bit, node),
    decreases 8 * d.len() + 1 - bit,
{
    match c.nodes[node as int].kids {
        None => {},
        Some((l, r)) => if bit < 8 * d.len() {
            let next = if bit_at(d, bit) == 1 {
                r
            } else {
                l
            };
            lemma_received_onward(c, d, bit + 1, next);
            assert(bit_at(d, bit) == bit_at(e, bit));
            law_codes_end_themselves(c, d, e, bit + 1, next);
        },
    }
}

} // verus!
