use goboscript::diagnostic::DiagnosticKind;
use goboscript::lua_macro;
use goboscript::lua_table::{SlotKind, TableRole};
use goboscript::lua_macro::{
    append_emitted, assemble_prepared, charge_budget, charge_instructions, new_budget, emit_into, sandbox_hidden_globals,
    parse_block, sandbox_lua, scan_lua_blocks, take_emitted, LuaBlock, PreparedLuaMacros, MAX_EMITTED_BYTES,
};
/// Runs a block's Lua in a sandboxed state, as the compiler driver does (without
/// its instruction budget).
fn run(code: &[u8]) -> Result<String, String> {
    let lua = mlua::Lua::new();
    let output = sandbox_lua(&lua).map_err(|e| e.to_string())?.output;
    lua.load(code).set_name("UY-script %lua macro").exec().map_err(|e| e.to_string())?;
    Ok(take_emitted(&output))
}

fn prepare(source: &str) -> PreparedLuaMacros {
    lua_macro::prepare(source, &run)
}


#[test]
fn emit_appends_a_newline_when_missing() {
    let mut output = String::from("a\n");
    assert!(append_emitted(&mut output, "var Int x = 1;").is_ok());
    assert_eq!(output, "a\nvar Int x = 1;\n");
}

#[test]
fn emit_keeps_an_existing_trailing_newline() {
    let mut output = String::new();
    assert!(append_emitted(&mut output, "say 1;\n").is_ok());
    assert_eq!(output, "say 1;\n");
}

#[test]
fn emit_of_empty_text_adds_a_newline() {
    let mut output = String::new();
    assert!(append_emitted(&mut output, "").is_ok());
    assert_eq!(output, "\n");
}

#[test]
fn emit_with_multibyte_text_counts_bytes() {
    let mut output = String::new();
    assert!(append_emitted(&mut output, "say \"é\";").is_ok());
    assert_eq!(output, "say \"é\";\n");
}

#[test]
fn emit_over_the_limit_is_refused_and_changes_nothing() {
    let mut output = "x".repeat(MAX_EMITTED_BYTES - 2);
    let result = append_emitted(&mut output, "ab");
    assert_eq!(result, Err("Lua macro output exceeded 8 MiB".to_string()));
    assert_eq!(output.len(), MAX_EMITTED_BYTES - 2);
}

#[test]
fn emit_exactly_up_to_the_limit_is_accepted() {
    let mut output = "x".repeat(MAX_EMITTED_BYTES - 2);
    assert!(append_emitted(&mut output, "a").is_ok());
    assert_eq!(output.len(), MAX_EMITTED_BYTES);
    assert!(output.ends_with("a\n"));
}

#[test]
fn scan_finds_blocks_with_their_spans() {
    let source = "%lua { a }\nsay 1;\n%lua {b}\n";
    let scan = scan_lua_blocks(source.as_bytes());
    assert!(scan.error.is_none());
    assert_eq!(scan.blocks.len(), 2);
    assert_eq!(scan.blocks[0].full_span, 0..10);
    assert_eq!(scan.blocks[0].body_span, 6..9);
    assert_eq!(scan.blocks[1].full_span, 18..26);
    assert_eq!(scan.blocks[1].body_span, 24..25);
}

#[test]
fn scan_stops_at_a_malformed_directive() {
    let source = "%lua { a }\n%lua nope\n%lua { b }\n";
    let scan = scan_lua_blocks(source.as_bytes());
    assert_eq!(scan.blocks.len(), 1);
    let error = scan.error.expect("a malformed directive is reported");
    assert_eq!(error.span, 11..20);
}

#[test]
fn scan_ignores_a_directive_inside_a_line() {
    let scan = scan_lua_blocks(b"say 1; %lua { x }\n");
    assert!(scan.blocks.is_empty());
    assert!(scan.error.is_none());
}

#[test]
fn braces_in_quotes_and_comments_do_not_close_a_block() {
    let source = "%lua { s = \"}\" -- }\n t = '}' }\n";
    let scan = scan_lua_blocks(source.as_bytes());
    assert!(scan.error.is_none());
    assert_eq!(scan.blocks.len(), 1);
    assert_eq!(scan.blocks[0].full_span, 0..source.len() - 1);
}

#[test]
fn masking_keeps_length_and_newlines() {
    let source = "%lua {\nuy.emit(\"say 1;\")\n}\nsay 2;\n";
    let prepared = prepare(source);
    assert_eq!(prepared.masked_source.len(), source.len());
    assert_eq!(prepared.masked_source, "      \n                 \n \nsay 2;\n");
}

#[test]
fn assembling_keeps_outputs_and_errors_in_block_order() {
    let blocks = vec![
        LuaBlock { full_span: 0..10, body_span: 6..9 },
        LuaBlock { full_span: 11..20, body_span: 17..19 },
        LuaBlock { full_span: 21..30, body_span: 27..29 },
    ];
    let outcomes = vec![
        Ok("say 1;\n".to_string()),
        Err("boom".to_string()),
        Ok(String::new()),
    ];
    let prepared = assemble_prepared("masked".to_string(), &blocks, outcomes, None);
    assert_eq!(prepared.masked_source, "masked");
    assert_eq!(prepared.expansions.len(), 1);
    assert_eq!(prepared.expansions[0].span, 0..10);
    assert_eq!(prepared.expansions[0].source, "say 1;\n");
    assert_eq!(prepared.diagnostics.len(), 1);
    assert_eq!(prepared.diagnostics[0].span, 11..20);
    match &prepared.diagnostics[0].kind {
        DiagnosticKind::IoError { message, help } => {
            assert_eq!(message, "Lua macro failed: boom");
            assert_eq!(
                help.as_deref(),
                Some("the error came from compile-time Lua inside `%lua { ... }`")
            );
        }
        _ => panic!("expected an I/O error"),
    }
}

#[test]
fn assembling_appends_the_scan_error_last() {
    let blocks = vec![LuaBlock { full_span: 0..10, body_span: 6..9 }];
    let scan = scan_lua_blocks(b"%lua nope\n");
    let error = scan.error;
    let prepared = assemble_prepared(
        String::new(),
        &blocks,
        vec![Err("first".to_string())],
        error,
    );
    assert_eq!(prepared.diagnostics.len(), 2);
    assert_eq!(prepared.diagnostics[0].span, 0..10);
    assert_eq!(prepared.diagnostics[1].span, 0..9);
}

#[test]
fn runtime_error_diagnostic_spans_the_block() {
    let source = "say 0;\n%lua { error(\"boom\") }\n";
    let prepared = prepare(source);
    assert_eq!(prepared.diagnostics.len(), 1);
    assert_eq!(prepared.diagnostics[0].span, 7..29);
    match &prepared.diagnostics[0].kind {
        DiagnosticKind::IoError { message, .. } => {
            assert!(message.starts_with("Lua macro failed: "));
            assert!(message.contains("boom"));
        }
        _ => panic!("expected an I/O error"),
    }
}

#[test]
fn instruction_charges_stop_at_the_limit() {
    assert_eq!(charge_instructions(0, 10, 100), Some(10));
    assert_eq!(charge_instructions(90, 10, 100), Some(100));
    assert_eq!(charge_instructions(95, 10, 100), None);
    assert_eq!(charge_instructions(u64::MAX, 1, u64::MAX), None);
}

#[test]
fn the_sandbox_hides_the_host_libraries() {
    assert_eq!(
        sandbox_hidden_globals(),
        vec!["io", "os", "package", "debug", "require", "dofile", "loadfile"]
    );
}

#[test]
fn emitted_output_is_collected_in_order() {
    let lua = mlua::Lua::new();
    let output = sandbox_lua(&lua).expect("a sandbox").output;
    assert!(emit_into(&output, "say 1;").is_ok());
    assert!(emit_into(&output, "say 2;\n").is_ok());
    assert_eq!(take_emitted(&output), "say 1;\nsay 2;\n");
    assert_eq!(take_emitted(&output), "");
}

#[test]
fn runs_get_exactly_the_block_bodies() {
    let seen = std::cell::RefCell::new(Vec::new());
    let record = |code: &[u8]| -> Result<String, String> {
        seen.borrow_mut().push(String::from_utf8(code.to_vec()).unwrap());
        Ok(String::new())
    };
    let prepared = lua_macro::prepare("%lua { a }\nsay 1;\n%lua {b}\n", &record);
    assert!(prepared.expansions.is_empty());
    assert_eq!(*seen.borrow(), vec![" a ".to_string(), "b".to_string()]);
}

#[test]
fn expansions_follow_the_source_and_stop_before_a_malformed_directive() {
    let source = "%lua { uy.emit(\"say 1;\") }\n%lua {}\n%lua { uy.emit(\"say 2;\") }\n%lua nope\n";
    let prepared = prepare(source);
    assert_eq!(prepared.expansions.len(), 2);
    let bad = source.find("%lua nope").unwrap();
    let mut last_end = 0;
    for e in &prepared.expansions {
        assert!(last_end <= e.span.start);
        assert!(source[e.span.clone()].starts_with("%lua"));
        assert!(source[e.span.clone()].ends_with('}'));
        assert!(!e.source.is_empty());
        assert!(e.span.end <= bad);
        last_end = e.span.end;
    }
    assert_eq!(prepared.expansions[0].span, 0..26);
    assert_eq!(prepared.expansions[0].source, "say 1;\n");
    assert_eq!(prepared.expansions[1].source, "say 2;\n");
    assert_eq!(prepared.diagnostics.len(), 1);
    assert_eq!(prepared.diagnostics[0].span.start, bad);
}

#[test]
fn a_long_bracket_ends_at_the_first_closer_of_its_level() {
    let source = "%lua { s = [==[ } ]=] ]==] }\n";
    let scan = scan_lua_blocks(source.as_bytes());
    assert!(scan.error.is_none());
    assert_eq!(scan.blocks.len(), 1);
    assert_eq!(scan.blocks[0].full_span, 0..source.len() - 1);
}

#[test]
fn an_unclosed_long_bracket_is_skipped_as_a_single_bracket() {
    let source = "%lua { t = {} [[ }\n";
    let scan = scan_lua_blocks(source.as_bytes());
    assert!(scan.error.is_none());
    assert_eq!(scan.blocks.len(), 1);
    assert_eq!(scan.blocks[0].full_span, 0..source.len() - 1);
}

#[test]
fn the_closing_brace_balances_the_nested_ones() {
    let source = "%lua { t = { a = { } , b = {} } } x }\n";
    let scan = scan_lua_blocks(source.as_bytes());
    assert_eq!(scan.blocks.len(), 1);
    let close = scan.blocks[0].body_span.end;
    let text = &source.as_bytes()[5..=close];
    let opens = text.iter().filter(|b| **b == b'{').count();
    let closes = text.iter().filter(|b| **b == b'}').count();
    assert_eq!(opens, closes);
    assert_eq!(close, source.find(" x").unwrap() - 1);
}

#[test]
fn the_sandbox_clears_the_host_globals_then_registers_emit() {
    let lua = mlua::Lua::new();
    let sandbox = sandbox_lua(&lua).expect("a sandbox");
    let writes: Vec<(TableRole, String, SlotKind)> = sandbox
        .writes
        .iter()
        .map(|w| (w.role(), w.key().to_string(), w.kind()))
        .collect();
    let mut expected: Vec<(TableRole, String, SlotKind)> =
        ["io", "os", "package", "debug", "require", "dofile", "loadfile"]
            .iter()
            .map(|n| (TableRole::Globals, n.to_string(), SlotKind::Nil))
            .collect();
    expected.push((TableRole::Created, "emit".to_string(), SlotKind::Function));
    expected.push((TableRole::Globals, "uy".to_string(), SlotKind::Table));
    assert_eq!(writes, expected);
    let globals = lua.globals();
    for name in ["io", "os", "package", "debug", "require", "dofile", "loadfile"] {
        assert!(globals.get::<mlua::Value>(name).unwrap().is_nil());
    }
    assert!(globals.get::<mlua::Table>("uy").unwrap().get::<mlua::Function>("emit").is_ok());
}

#[test]
fn the_budget_stops_a_block_after_ten_million_instructions() {
    let budget = new_budget();
    for _ in 0..1000 {
        assert!(charge_budget(&budget).is_ok());
    }
    assert_eq!(
        charge_budget(&budget),
        Err("Lua macro exceeded the 10,000,000 instruction limit".to_string())
    );
    assert!(charge_budget(&budget).is_err());
}

#[test]
fn parse_block_reads_the_braces_after_the_directive() {
    let source = b"%lua \t{ a }\nsay 1;\n";
    let block = parse_block(source, 0).expect("a block");
    assert_eq!(block.full_span, 0..11);
    assert_eq!(block.body_span, 7..10);
    let error = parse_block(b"%lua", 0).err().expect("no brace follows");
    assert_eq!(error.span, 0..4);
    let error = parse_block(b"%lua { a\n", 0).err().expect("never closed");
    assert_eq!(error.span, 0..9);
}
