use goboscript::lua_macro;
use goboscript::lua_macro::{sandbox_lua, take_emitted, PreparedLuaMacros};

/// Runs a block's Lua in a sandboxed state, as the compiler driver does (without
/// its instruction budget).
fn run(code: &[u8]) -> Result<String, String> {
    let lua = mlua::Lua::new();
    let output = sandbox_lua(&lua).map_err(|e| e.to_string())?.output;
    lua.load(code).set_name("UY-script %lua macro").exec().map_err(|e| e.to_string())?;
    Ok(take_emitted(&output))
}

fn prepare(source: &str) -> PreparedLuaMacros {
    lua_macro::prepare(source, &run)
}

#[test]
fn finds_nested_braces_and_long_strings() {
    let source = r#"%lua {
local t = { one = 1, two = { 2, 3 } }
uy.emit([[
onflag {
    say "hello";
}
]])
}
onflag { say 2; }
"#;
    let prepared = prepare(source);
    assert!(prepared.diagnostics.is_empty());
    assert_eq!(prepared.expansions.len(), 1);
    assert!(prepared.masked_source.contains("onflag { say 2; }"));
}

#[test]
fn lua_can_generate_uy_source() {
    let source = r#"%lua {
for i = 1, 3 do
    uy.emit("var Int generated_" .. i .. " = " .. i .. ";")
end
}
"#;
    let prepared = prepare(source);
    assert!(prepared.diagnostics.is_empty());
    let generated = &prepared.expansions[0].source;
    assert!(generated.contains("var Int generated_1 = 1;"));
    assert!(generated.contains("var Int generated_3 = 3;"));
}

#[test]
fn dangerous_host_libraries_are_hidden() {
    let source = "%lua { assert(os == nil and io == nil and package == nil) }\n";
    let prepared = prepare(source);
    assert!(prepared.diagnostics.is_empty());
}

#[test]
fn lua_macro_generates_source() {
    let prepared = prepare(
        r#"%lua {
for i = 1, 3 do
    uy.emit("var Int generated_" .. i .. " = " .. i .. ";")
end
}
"#,
    );

    assert!(prepared.diagnostics.is_empty(), "{:#?}", prepared.diagnostics);
    assert_eq!(prepared.expansions.len(), 1);
    assert_eq!(
        prepared.expansions[0].source,
        "var Int generated_1 = 1;\nvar Int generated_2 = 2;\nvar Int generated_3 = 3;\n"
    );
}

#[test]
fn multiple_lua_macros_expand_in_source_order() {
    let source = r#"%lua { uy.emit("var Int first = 1;") }
var Int middle = 2;
%lua { uy.emit("var Int last = 3;") }
"#;
    let prepared = prepare(source);

    assert!(prepared.diagnostics.is_empty(), "{:#?}", prepared.diagnostics);
    assert_eq!(prepared.expansions.len(), 2);
    assert!(prepared.expansions[0].span.start < prepared.expansions[1].span.start);
    assert_eq!(prepared.expansions[0].source, "var Int first = 1;\n");
    assert_eq!(prepared.expansions[1].source, "var Int last = 3;\n");
    assert!(prepared.masked_source.contains("var Int middle = 2;"));
}

#[test]
fn braces_inside_lua_strings_comments_and_long_strings_do_not_end_block() {
    let source = r#"%lua {
local quoted = "}" -- this brace is data
-- { and } in a comment are also data
local generated = [=[
onflag {
    say "}";
}
]=]
uy.emit(generated)
}
var Int after = 1;
"#;
    let prepared = prepare(source);

    assert!(prepared.diagnostics.is_empty(), "{:#?}", prepared.diagnostics);
    assert_eq!(prepared.expansions.len(), 1);
    assert!(prepared.expansions[0].source.contains("onflag {"));
    assert!(prepared.expansions[0].source.contains("say \"}\";"));
    assert!(prepared.masked_source.contains("var Int after = 1;"));
}

#[test]
fn lua_directive_must_start_a_line() {
    let source = "var x = 1; %lua { this is not a macro }\n";
    let prepared = prepare(source);

    assert!(prepared.diagnostics.is_empty());
    assert!(prepared.expansions.is_empty());
    assert_eq!(prepared.masked_source, source);
}

#[test]
fn missing_opening_brace_is_reported() {
    let prepared = prepare("%lua nope\n");

    assert_eq!(prepared.diagnostics.len(), 1);
    assert!(prepared.expansions.is_empty());
}

#[test]
fn unterminated_lua_block_is_reported() {
    let prepared = prepare("%lua {\nuy.emit(\"var x = 1;\")\n");

    assert_eq!(prepared.diagnostics.len(), 1);
    assert!(prepared.expansions.is_empty());
}

#[test]
fn lua_runtime_errors_become_compiler_diagnostics() {
    let prepared = prepare("%lua { error(\"boom\") }\n");

    assert_eq!(prepared.diagnostics.len(), 1);
    assert!(prepared.expansions.is_empty());
}

#[test]
fn lua_host_access_is_sandboxed() {
    let prepared = prepare(
        "%lua { assert(os == nil and io == nil and package == nil and debug == nil and require == nil and dofile == nil and loadfile == nil) }\n",
    );

    assert!(prepared.diagnostics.is_empty(), "{:#?}", prepared.diagnostics);
}

#[test]
fn uy_emit_adds_one_trailing_newline() {
    let prepared = prepare(
        r#"%lua {
uy.emit("var Int a = 1;")
uy.emit("var Int b = 2;\n")
}
"#,
    );

    assert!(prepared.diagnostics.is_empty(), "{:#?}", prepared.diagnostics);
    assert_eq!(
        prepared.expansions[0].source,
        "var Int a = 1;\nvar Int b = 2;\n"
    );
}

#[test]
fn empty_lua_output_creates_no_expansion() {
    let prepared = prepare("%lua { local x = 1 + 2 }\n");

    assert!(prepared.diagnostics.is_empty(), "{:#?}", prepared.diagnostics);
    assert!(prepared.expansions.is_empty());
}
