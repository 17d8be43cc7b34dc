//! The classes of a server, and the properties of each in the order in which they
//! are written.
use crate::source::sendprop::{SendPropDef, SendPropType};
use std::collections::HashMap;
use vstd::prelude::*;

verus! {

#[derive(Debug)]
pub struct ServerClass {
    pub id: u16,
    pub name: String,
    pub data_table: String,
}

/// What a `ServerClass` says.
pub struct ClassView {
    pub id: u16,
    pub name: Seq<char>,
    pub data_table: Seq<char>,
}

impl ServerClass {
    pub open spec fn view(&self) -> ClassView {
        ClassView { id: self.id, name: self.name@, data_table: self.data_table@ }
    }
}

pub open spec fn classes(v: Seq<ServerClass>) -> Seq<ClassView> {
    v.map_values(|c: ServerClass| c@)
}

/// A property of a table, before the tables are joined to lists.
#[derive(Debug)]
pub struct RawSendPropDef {
    pub prop_type: SendPropType,
    pub name: String,
    pub flags: u32,
    pub priority: u8,
    /// The table that an exclusion is about.
    pub exclude_dt_name: Option<String>,
    /// The table that the property stands for.
    pub data_table_name: Option<String>,
    pub low_value: u32,
    pub high_value: u32,
    pub bit_count: u32,
    pub element_count: u16,
    /// What an array holds.
    pub array_element: Option<Box<RawSendPropDef>>,
}

#[derive(Debug)]
pub struct RawSendTable {
    pub needs_decoder: bool,
    pub name: String,
    pub props: Vec<RawSendPropDef>,
}

pub struct DataTables {
    pub server_classes: Vec<ServerClass>,
    pub flat_props: HashMap<u16, Vec<SendPropDef>>,
}

/// What `DataTables` say.
pub struct TablesView {
    pub classes: Seq<ClassView>,
    pub flat: Map<u16, Seq<SendPropDef>>,
}

pub open spec fn flat_view(m: Map<u16, Vec<SendPropDef>>) -> Map<u16, Seq<SendPropDef>> {
    m.map_values(|v: Vec<SendPropDef>| v@)
}

impl DataTables {
    pub open spec fn view(&self) -> TablesView {
        TablesView { classes: classes(self.server_classes@), flat: flat_view(self.flat_props@) }
    }

    /// The classes and each class's properties can be counted in 32 bits.
    pub open spec fn wf(&self) -> bool {
        &&& self.server_classes@.len() <= 0x7fff_ffff
        &&& forall|k: u16| #[trigger]
            self.flat_props@.contains_key(k) ==> self.flat_props@[k]@.len() <= 0x7fff_0000
    }
}

} // verus!
