use hamer::generator::{compile, script_comment, Generator, Piece};
use hamer::lexer::{tokenize, Num, Token};
use hamer::parser::{Module, Parser, Stmt};
use hamer::roll::{chaos_mix, chaos_passes};
use hamer::text::push_decimal;

fn assembly(src: &str) -> String {
    assembly_with(src, Vec::new())
}

fn assembly_with(src: &str, modules: Vec<Module>) -> String {
    let mut out = String::new();
    for p in compile(src.to_string(), modules) {
        match p {
            Piece::Asm(t) => out.push_str(&t),
            Piece::Script(s) => out.push_str(&format!("<script {}>", s)),
        }
    }
    out
}

fn num(v: u64, t: &str) -> Token {
    Token::Number(Num { value: v, text: t.to_string() })
}

fn ident(s: &str) -> Token {
    Token::Identifier(s.to_string())
}

fn parse(src: &str) -> Vec<Stmt> {
    Parser::new(tokenize(src.to_string())).parse_program()
}

#[test]
fn lexes_declaration() {
    let t = tokenize("local x = 5".to_string());
    assert_eq!(t, vec![Token::Local, ident("x"), Token::Assign, num(5, "5"), Token::EOF]);
}

#[test]
fn lexes_equal_and_assign() {
    let t = tokenize("a == 1 = b".to_string());
    assert_eq!(t, vec![ident("a"), Token::Equal, num(1, "1"), Token::Assign, ident("b"), Token::EOF]);
}

#[test]
fn keywords_are_case_sensitive() {
    let t = tokenize("Get get Class class done".to_string());
    assert_eq!(t, vec![Token::Get, ident("get"), ident("Class"), Token::Class, Token::Done, Token::EOF]);
}

#[test]
fn numbers_truncate_and_malformed_read_zero() {
    let t = tokenize("12.75 1.2.3 007".to_string());
    assert_eq!(t, vec![num(12, "12.75"), num(0, "0"), num(7, "007"), Token::EOF]);
}

#[test]
fn huge_number_saturates() {
    let t = tokenize("99999999999999999999".to_string());
    assert_eq!(t, vec![num(9223372036854775807, "99999999999999999999"), Token::EOF]);
}

#[test]
fn unterminated_string_runs_to_end() {
    let t = tokenize("print \"abc def".to_string());
    assert_eq!(t, vec![Token::Print, Token::StringLit("abc def".to_string()), Token::EOF]);
}

#[test]
fn unknown_characters_are_skipped() {
    let t = tokenize("a ; # b".to_string());
    assert_eq!(t, vec![ident("a"), ident("b"), Token::EOF]);
}

#[test]
fn empty_source_is_just_eof() {
    assert_eq!(tokenize(String::new()), vec![Token::EOF]);
}

#[test]
fn relexing_gives_same_tokens() {
    let src = "class Pt is x y done local p = new Pt p.x = 7 if? 50 then print \"hi\" done";
    assert_eq!(tokenize(src.to_string()), tokenize(src.to_string()));
}

#[test]
fn reparsing_gives_same_statements() {
    let src = "class Pt is x y done local p = new Pt while p.x < 3 do p.x = p.x + 1 done";
    let tokens = tokenize(src.to_string());
    let a = Parser::new(tokens.clone()).parse_program();
    let b = Parser::new(tokens).parse_program();
    assert_eq!(a, b);
}

#[test]
fn parses_class_and_alloc() {
    let s = parse("class Pt is x y done local p = new Pt");
    assert_eq!(
        s,
        vec![
            Stmt::ClassDef { name: "Pt".to_string(), fields: vec!["x".to_string(), "y".to_string()] },
            Stmt::HeapAlloc { var_name: "p".to_string(), class_name: "Pt".to_string() },
        ]
    );
}

#[test]
fn parses_arithmetic_update_dropping_repeated_path() {
    let s = parse("x = x - 3");
    assert_eq!(s, vec![Stmt::FieldMath { path: vec!["x".to_string()], op: Token::Minus, rhs_val: 3 }]);
}

#[test]
fn parses_chance_block() {
    let s = parse("if ? < % 25 > then print \"hit\" done");
    assert_eq!(s, vec![Stmt::ProbIf { chance: 25, body: vec![Stmt::PrintString("hit".to_string())] }]);
}

#[test]
fn parses_raw_blocks() {
    let s = parse("@asm mov x0 , 5 done @intel mov [ rax ] , 1 done @python say \"a\" done @foo");
    assert_eq!(
        s,
        vec![
            Stmt::AsmBlock("mov x0 , #5 ".to_string()),
            Stmt::IntelBlock("mov [ rax ] , 1 ".to_string()),
            Stmt::PythonBlock("say \"a\" ".to_string()),
            Stmt::AsmBlock("nop".to_string()),
            Stmt::AsmBlock("nop".to_string()),
        ]
    );
}

#[test]
fn unclosed_block_stops_at_end() {
    let s = parse("if x > 1 then print x");
    assert_eq!(
        s,
        vec![Stmt::IfStmt {
            path: vec!["x".to_string()],
            op: Token::Greater,
            rhs_val: 1,
            body: vec![Stmt::PrintVar("x".to_string())],
        }]
    );
}

#[test]
fn missing_module_becomes_comment() {
    let out = assembly("Get nothere");
    assert!(out.contains("    // Error: Could not read nothere.hmr\n"));
}

#[test]
fn included_module_shares_state() {
    let m = Module { name: "lib".to_string(), source: "local y = 4".to_string() };
    let out = assembly_with("Get lib\ny = y + 1", vec![m]);
    assert!(out.contains("    mov x12, #4\n"));
    assert!(out.contains("    add x12, x12, #1\n"));
}

#[test]
fn cyclic_inclusion_is_cut() {
    let m = Module { name: "a".to_string(), source: "local z = 1 Get a".to_string() };
    let out = assembly_with("Get a", vec![m]);
    assert!(out.contains("    // Error: cyclic inclusion of a.hmr\n"));
}

#[test]
fn program_starts_with_prologue_and_ends_with_exit() {
    let out = assembly("");
    assert!(out.starts_with(".global _start\n.section .text\n\n_start:\n    mov x11, #10\n"));
    assert!(out.contains("    mov x8, #222\n    svc #0\n    mov x20, x0\n"));
    assert!(out.ends_with("\n    mov x0, #0\n    mov x8, #93\n    svc #0\n"));
}

#[test]
fn scenario_add_and_print() {
    let out = assembly("local x = 5\nx = x + 3\nprint x");
    let expected_body = "    mov x12, #5\n    add x12, x12, #3\n\n    stp x0, x1, [sp, #-16]!\n    mov x0, x12\n";
    assert!(out.contains(expected_body));
    assert!(out.contains("    udiv x2, x0, x11\n    msub x3, x2, x11, x0\n    add x3, x3, #48\n"));
    assert!(out.ends_with("    mov x0, #0\n    mov x8, #93\n    svc #0\n"));
}

#[test]
fn scenario_object_field() {
    let out = assembly("class Pt is x y done\nlocal p = new Pt\np.x = 7\nprint p.x");
    assert!(out.contains("    mov x12, x20\n    add x20, x20, #16\n"));
    assert!(out.contains("    mov x1, #7\n    str x1, [x12, #0]\n"));
    assert!(out.contains("    mov x0, x12\n"));
}

#[test]
fn scenario_conditional_print() {
    let out = assembly("local x = 11\nif x > 10 then print \"big\" done");
    assert!(out.contains("    mov x1, x12\n    cmp x1, #10\n    b.le .Lif0\n"));
    assert!(out.contains(".Lstr1: .ascii \"big\\n\"\n"));
    assert!(out.contains("    mov x2, #4\n"));
    assert!(out.contains(".Lif0:\n"));
}

#[test]
fn field_offsets_are_eight_per_field() {
    let out = assembly("class T is a b c done\nlocal t = new T\nt.c = 1\nt.b = 2\nt.zz = 3");
    assert!(out.contains("    str x1, [x12, #16]\n"));
    assert!(out.contains("    str x1, [x12, #8]\n"));
    assert!(out.contains("    mov x1, #3\n    str x1, [x12, #0]\n"));
}

#[test]
fn labels_increase_in_emission_order() {
    let out = assembly("local x = 1\nif x == 1 then while x < 5 do x = x + 1 done done\nif ? 50 then print \"s\" done");
    let a = out.find(".Lif0:").unwrap();
    let w = out.find(".Lw_start1:").unwrap();
    let r = out.find("// Chaos Roll 50%").unwrap();
    assert!(w < a);
    assert!(out.contains("b.ne .Lif0\n"));
    assert!(out.contains("b.ge .Lw_end1\n"));
    assert!(out.contains("b.hs .Lif2\n"));
    assert!(out.contains(".Lstr3:"));
    assert!(a < r);
}

#[test]
fn unknown_comparison_branches_if_equal() {
    let out = assembly("local x = 1\nif x + 2 then done");
    assert!(out.contains("    cmp x1, #2\n    b.eq .Lif0\n"));
}

#[test]
fn allocations_advance_by_class_size() {
    let out = assembly("class A is a b done\nclass B is a b c done\nlocal p = new A\nlocal q = new B\nlocal r = new Nope");
    assert!(out.contains("    mov x12, x20\n    add x20, x20, #16\n    mov x13, x20\n    add x20, x20, #24\n"));
    assert!(!out.contains("mov x14, x20"));
}

#[test]
fn unknown_variable_uses_fallback_register() {
    let out = assembly("q = 9\nprint q");
    assert!(out.contains("    mov x0, #9\n"));
    assert!(!out.contains("stp x0, x1"));
}

#[test]
fn chance_roll_uses_math_object() {
    let out = assembly("class M is seed state done\nlocal math = new M\nif ? 30 then done");
    assert!(out.contains("    ldr x1, [x12, #8]\n"));
    assert!(out.contains("    str x1, [x12, #8]\n"));
    let plain = assembly("if ? 30 then done");
    assert!(plain.contains("    ldr x1, [x12, #8]\n"));
}

#[test]
fn chance_zero_and_hundred() {
    let mut s: u64 = 1;
    for _ in 0..1000 {
        s = chaos_mix(s);
        assert!(!chaos_passes(s, 0));
        assert!(chaos_passes(s, 100));
    }
}

#[test]
fn chance_fraction_matches_threshold() {
    let mut hits = 0u32;
    let n = 20000u32;
    for seed in 1..=n as u64 {
        if chaos_passes(chaos_mix(seed.wrapping_mul(0x2545F4914F6CDD1D)), 30) {
            hits += 1;
        }
    }
    let frac = hits as f64 / n as f64;
    assert!((frac - 0.30).abs() < 0.02, "fraction {}", frac);
}

#[test]
fn mix_exact_value() {
    let y = 1u64.wrapping_mul(0x9E3779B97F4A7C15);
    assert_eq!(chaos_mix(1), y ^ (y >> 33));
    assert_eq!(chaos_mix(0), 0);
}

#[test]
fn decimal_digits() {
    for (v, s) in [(0u64, "0"), (7, "7"), (10, "10"), (999999999, "999999999"), (18446744073709551615, "18446744073709551615")] {
        let mut out = Vec::new();
        push_decimal(&mut out, v);
        assert_eq!(out.iter().collect::<String>(), s);
    }
}

#[test]
fn scripts_become_pieces() {
    let pieces = compile("@python len 1 done\nlocal a = 2".to_string(), Vec::new());
    assert_eq!(pieces.len(), 3);
    assert!(matches!(&pieces[1], Piece::Script(s) if s == "len 1 "));
    match &pieces[2] {
        Piece::Asm(t) => assert!(t.starts_with("    mov x12, #2\n")),
        _ => panic!("expected assembly"),
    }
}

#[test]
fn script_comment_trims() {
    assert_eq!(script_comment(&"  42 \n".to_string()), "\n    // Python Output: 42\n");
    assert_eq!(script_comment(&"".to_string()), "\n    // Python Output: \n");
}

#[test]
fn generator_reuses_state_across_calls() {
    let mut g = Generator::new();
    let out = g.generate(parse("local a = 1"));
    assert_eq!(out.len(), 1);
}

#[test]
fn unicode_letters_continue_identifiers() {
    let t = tokenize("héllo_1 x".to_string());
    assert_eq!(t, vec![ident("héllo_1"), ident("x"), Token::EOF]);
}

#[test]
fn unicode_whitespace_separates_tokens() {
    let t = tokenize("a\u{2003}b\u{00A0}c".to_string());
    assert_eq!(t, vec![ident("a"), ident("b"), ident("c"), Token::EOF]);
}

#[test]
fn script_comment_trims_unicode_space() {
    assert_eq!(script_comment(&"\u{2003}ok\u{00A0}".to_string()), "\n    // Python Output: ok\n");
}

#[test]
fn lexer_pulls_tokens_one_at_a_time() {
    let mut lx = hamer::lexer::Lexer::new("print \"hi\"".to_string());
    assert_eq!(lx.next_token(), Token::Print);
    assert_eq!(lx.next_token(), Token::StringLit("hi".to_string()));
    assert_eq!(lx.next_token(), Token::EOF);
    assert_eq!(lx.next_token(), Token::EOF);
}

#[test]
fn while_loop_shape() {
    let out = assembly("local i = 0\nwhile i < 3 do i = i + 1 done");
    assert!(out.contains(".Lw_start0:\n    mov x1, x12\n    cmp x1, #3\n    b.ge .Lw_end0\n    add x12, x12, #1\n    b .Lw_start0\n.Lw_end0:\n"));
}

#[test]
fn field_update_loads_and_stores() {
    let out = assembly("class P is a b done\nlocal p = new P\np.b = p.b - 2");
    assert!(out.contains("    ldr x1, [x12, #8]\n    sub x1, x1, #2\n    str x1, [x12, #8]\n"));
}

#[test]
fn intel_block_is_wrapped() {
    let out = assembly("@intel mov rax , 1 done");
    assert!(out.contains("\n    .intel_syntax noprefix\n    mov rax , 1 \n    .att_syntax\n"));
}

#[test]
fn registers_skip_bump_pointer_and_stop_at_x28() {
    let mut src = String::new();
    for i in 0..18 {
        src.push_str(&format!("local v{} = {}\n", i, i));
    }
    let out = assembly(&src);
    assert!(out.contains("    mov x19, #7\n"));
    assert!(out.contains("    mov x21, #8\n"));
    assert!(!out.contains("    mov x20, #"));
    assert!(out.contains("    mov x28, #15\n"));
    assert!(!out.contains("#16\n"));
    assert!(!out.contains("x29"));
}
