use vstd::prelude::*;

verus! {

/// Where a table came from: the state's globals, or a table made afresh.
#[derive(Clone, Copy, Debug, PartialEq, Eq, Structural)]
pub enum TableRole {
    Globals,
    Created,
}

/// The kind of value stored by a write.
#[derive(Clone, Copy, Debug, PartialEq, Eq, Structural)]
pub enum SlotKind {
    Nil,
    Table,
    Function,
}

/// A Lua table, with where it came from.
pub struct LuaTable {
    table: mlua::Table,
    role: TableRole,
}

impl LuaTable {
    /// Where the table came from.
    pub closed spec fn role(&self) -> TableRole {
        self.role
    }
}

/// A value to store in a Lua table.
pub enum LuaSlot {
    Nil,
    Table(LuaTable),
    Function(mlua::Function),
}

/// The kind of a value to store.
pub open spec fn slot_kind(value: LuaSlot) -> SlotKind {
    match value {
        LuaSlot::Nil => SlotKind::Nil,
        LuaSlot::Table(_) => SlotKind::Table,
        LuaSlot::Function(_) => SlotKind::Function,
    }
}

/// A write that a table accepted: the table's role, the key, and the kind of
/// value stored under it. Only [`lua_table_set`] makes one, when the write
/// succeeded.
#[derive(Debug)]
pub struct TableWrite {
    role: TableRole,
    key: String,
    kind: SlotKind,
}

impl View for TableWrite {
    type V = (TableRole, Seq<char>, SlotKind);

    closed spec fn view(&self) -> (TableRole, Seq<char>, SlotKind) {
        (self.role, self.key@, self.kind)
    }
}

impl TableWrite {
    /// The role of the table written to.
    pub fn role(&self) -> (r: TableRole)
        ensures
            r == self@.0,
    {
        self.role
    }

    /// The key written.
    pub fn key(&self) -> (r: &str)
        ensures
            r@ == self@.1,
    {
        self.key.as_str()
    }

    /// The kind of value written.
    pub fn kind(&self) -> (r: SlotKind)
        ensures
            r == self@.2,
    {
        self.kind
    }
}

/// The views of a sequence of writes.
pub open spec fn writes_view(ws: Seq<TableWrite>) -> Seq<(TableRole, Seq<char>, SlotKind)> {
    ws.map_values(|w: TableWrite| w@)
}

/// `mlua::Lua::globals`: the table of the state's global variables.
#[verifier::external_body]
pub(crate) fn lua_globals(lua: &mlua::Lua) -> (r: LuaTable)
    ensures
        r.role() == TableRole::Globals,
{
    LuaTable { table: lua.globals(), role: TableRole::Globals }
}

/// `mlua::Lua::create_table`: a new empty table.
#[verifier::external_body]
pub(crate) fn lua_create_table(lua: &mlua::Lua) -> (r: Result<LuaTable, mlua::Error>)
    ensures
        r matches Ok(t) ==> t.role() == TableRole::Created,
{
    lua.create_table().map(|table| LuaTable { table, role: TableRole::Created })
}

/// `mlua::Table::set`: stores `value` under the string key `key`. When the table
/// accepts it, the write that was carried out is given back: this table's role,
/// `key`, and the kind of `value`. Whether it succeeds is up to `mlua`.
#[verifier::external_body]
pub(crate) fn lua_table_set(table: &LuaTable, key: &str, value: LuaSlot) -> (r: Result<
    TableWrite,
    mlua::Error,
>)
    ensures
        r matches Ok(w) ==> w@ == (table.role(), key@, slot_kind(value)),
{
    let (result, kind) = match value {
        LuaSlot::Nil => (table.table.set(key, mlua::Value::Nil), SlotKind::Nil),
        LuaSlot::Table(t) => (table.table.set(key, t.table), SlotKind::Table),
        LuaSlot::Function(f) => (table.table.set(key, f), SlotKind::Function),
    };
    result.map(|()| TableWrite { role: table.role, key: key.to_string(), kind })
}

} // verus!
