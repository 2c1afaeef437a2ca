use frel_compiler::compile;
use frel_compiler::{Config, ErrorMode};
use frel_compiler::diag::{DiagKind, Stage};
use frel_compiler::encode::encode;
use frel_compiler::ast::{Document, Node};
use frel_compiler::diag::Span;

fn rd32(b: &[u8], off: usize) -> u32 {
    u32::from_le_bytes([b[off], b[off + 1], b[off + 2], b[off + 3]])
}

struct Parsed {
    pool: Vec<Vec<u8>>,
    recs: Vec<(u8, u32, u32)>,
}

fn parse_blob(b: &[u8]) -> Parsed {
    assert_eq!(&b[0..4], b"FIR1");
    assert_eq!(rd32(b, 8), 24);
    let toff = rd32(b, 12) as usize;
    let mut pool = Vec::new();
    let pc = rd32(b, 24) as usize;
    let mut off = 28;
    for _ in 0..pc {
        let l = rd32(b, off) as usize;
        pool.push(b[off + 4..off + 4 + l].to_vec());
        off = off + 4 + l;
    }
    assert_eq!(off, toff, "string pool must end where the node table starts");
    let rc = rd32(b, toff) as usize;
    let mut recs = Vec::new();
    let mut r = toff + 4;
    for _ in 0..rc {
        recs.push((b[r], rd32(b, r + 1), rd32(b, r + 5)));
        r += 9;
    }
    assert_eq!(r, b.len(), "node table must end at the end of the blob");
    Parsed { pool, recs }
}

#[test]
fn empty_input_header_only() {
    let out = compile(b"", &Config::default()).unwrap();
    let b = &out.blob.bytes;
    assert_eq!(b.len(), 32);
    let p = parse_blob(b);
    assert_eq!(p.pool.len(), 0);
    assert_eq!(p.recs.len(), 0);
    assert_eq!(out.warnings.len(), 0);
}

#[test]
fn interpolation_nodes_and_pool() {
    let out = compile(b"Hello {{name}}!", &Config::default()).unwrap();
    let p = parse_blob(&out.blob.bytes);
    assert_eq!(p.pool, vec![b"Hello ".to_vec(), b"name".to_vec(), b"!".to_vec()]);
    assert_eq!(p.recs, vec![(0, 0, 1), (1, 1, 1), (0, 2, 1)]);
}

#[test]
fn dedup_single_pooled_string() {
    let out = compile(b"{{x}}{{x}}", &Config::default()).unwrap();
    let p = parse_blob(&out.blob.bytes);
    assert_eq!(p.pool, vec![b"x".to_vec()]);
    assert_eq!(p.recs, vec![(1, 0, 1), (1, 0, 1)]);
}

#[test]
fn deterministic_blobs() {
    let src = b"{% define a %}A{% end %}{% if c %}{{a}} text {% end %}";
    let mut cfg = Config::default();
    cfg.strict_unknown_refs = false;
    let b1 = compile(src, &cfg).unwrap().blob.bytes;
    let b2 = compile(src, &cfg).unwrap().blob.bytes;
    assert_eq!(b1, b2);
}

#[test]
fn block_structure_record_counts() {
    let out = compile(b"{% if c %}a{{v}}{% end %}", &Config::default()).unwrap();
    let p = parse_blob(&out.blob.bytes);
    assert_eq!(p.pool, vec![b"c".to_vec(), b"a".to_vec(), b"v".to_vec()]);
    assert_eq!(p.recs, vec![(2, 0, 3), (0, 1, 1), (1, 2, 1)]);
}

#[test]
fn cycle_of_two_definitions_reported() {
    let src = b"{% define a %}{% include b %}{% end %}{% define b %}{% include a %}{% end %}";
    let errs = compile(src, &Config::default()).unwrap_err();
    assert_eq!(errs.len(), 1);
    let d = &errs[0];
    assert_eq!(d.stage, Stage::Validate);
    match &d.kind {
        DiagKind::CyclicInclude { cycle } => {
            assert!(cycle.contains(&b"a".to_vec()));
            assert!(cycle.contains(&b"b".to_vec()));
        }
        k => panic!("expected a cycle error, got {:?}", k),
    }
}

#[test]
fn depth_guard_rejects_deep_nesting() {
    let mut cfg = Config::default();
    cfg.max_nesting_depth = 3;
    cfg.strict_unknown_refs = false;
    let src = b"{%if a%}{%if b%}{%if c%}{%if d%}{%if e%}x{%end%}{%end%}{%end%}{%end%}{%end%}";
    let errs = compile(src, &cfg).unwrap_err();
    assert_eq!(errs.len(), 1);
    match &errs[0].kind {
        DiagKind::NestingTooDeep { limit, actual } => {
            assert_eq!(*limit, 3);
            assert_eq!(*actual, 4);
        }
        k => panic!("expected a nesting error, got {:?}", k),
    }
}

#[test]
fn depth_through_references_counted() {
    let mut cfg = Config::default();
    cfg.max_nesting_depth = 2;
    let src = b"{% define a %}{% if c %}x{% end %}{% end %}{% if d %}{% include a %}{% end %}";
    let errs = compile(src, &cfg).unwrap_err();
    assert!(matches!(errs[0].kind, DiagKind::NestingTooDeep { .. }));
    let mut cfg2 = Config::default();
    cfg2.max_nesting_depth = 3;
    assert!(compile(src, &cfg2).is_ok());
}

#[test]
fn unterminated_interpolation() {
    let errs = compile(b"{{name", &Config::default()).unwrap_err();
    assert_eq!(errs[0].stage, Stage::Lex);
    assert!(matches!(errs[0].kind, DiagKind::UnterminatedDelimiter));
}

#[test]
fn unterminated_comment() {
    let errs = compile(b"a{# never closed", &Config::default()).unwrap_err();
    assert!(matches!(errs[0].kind, DiagKind::UnterminatedDelimiter));
}

#[test]
fn invalid_escape() {
    let errs = compile(b"a\\qb", &Config::default()).unwrap_err();
    assert_eq!(errs[0].stage, Stage::Lex);
    assert!(matches!(errs[0].kind, DiagKind::InvalidEscape));
    assert_eq!(errs[0].span, Span { lo: 1, hi: 3 });
}

#[test]
fn escapes_decode_to_literal_braces() {
    let out = compile(b"\\{\\{x\\}\\}", &Config::default()).unwrap();
    let p = parse_blob(&out.blob.bytes);
    assert_eq!(p.pool, vec![b"{{x}}".to_vec()]);
    assert_eq!(p.recs, vec![(0, 0, 1)]);
}

#[test]
fn comments_are_skipped() {
    let out = compile(b"a{# note #}b", &Config::default()).unwrap();
    let p = parse_blob(&out.blob.bytes);
    assert_eq!(p.pool, vec![b"a".to_vec(), b"b".to_vec()]);
    assert_eq!(p.recs, vec![(0, 0, 1), (0, 1, 1)]);
}

#[test]
fn unexpected_byte_in_delimiter() {
    let errs = compile(b"{{ n!me }}", &Config::default()).unwrap_err();
    assert!(errs.iter().any(|d| matches!(d.kind, DiagKind::UnexpectedByte)));
}

#[test]
fn stray_end_is_unexpected() {
    let errs = compile(b"{% end %}", &Config::default()).unwrap_err();
    assert_eq!(errs[0].stage, Stage::Parse);
    assert!(matches!(errs[0].kind, DiagKind::UnexpectedToken));
}

#[test]
fn unknown_directive_reported() {
    let errs = compile(b"{% loop x %}", &Config::default()).unwrap_err();
    assert!(matches!(errs[0].kind, DiagKind::UnknownDirective));
}

#[test]
fn unclosed_block_reported() {
    let errs = compile(b"{% if x %}body", &Config::default()).unwrap_err();
    assert!(matches!(errs[0].kind, DiagKind::UnclosedBlock));
}

#[test]
fn unknown_reference_strict_fails() {
    let errs = compile(b"{% include nope %}", &Config::default()).unwrap_err();
    assert_eq!(errs[0].stage, Stage::Validate);
    match &errs[0].kind {
        DiagKind::UnknownReference { name } => assert_eq!(name, &b"nope".to_vec()),
        k => panic!("expected an unknown reference, got {:?}", k),
    }
}

#[test]
fn unknown_reference_lenient_warns() {
    let mut cfg = Config::default();
    cfg.strict_unknown_refs = false;
    let out = compile(b"{% include nope %}", &cfg).unwrap();
    assert_eq!(out.warnings.len(), 1);
    assert!(matches!(out.warnings[0].kind, DiagKind::UnknownReference { .. }));
}

#[test]
fn known_fragments_resolve_references() {
    let mut cfg = Config::default();
    cfg.known_fragments = vec![b"site_header".to_vec()];
    let out = compile(b"{% include site_header %}", &cfg).unwrap();
    assert_eq!(out.warnings.len(), 0);
    let p = parse_blob(&out.blob.bytes);
    assert_eq!(p.recs, vec![(4, 0, 1)]);
}

#[test]
fn duplicate_definition_reported() {
    let src = b"{% define a %}x{% end %}{% define a %}y{% end %}";
    let errs = compile(src, &Config::default()).unwrap_err();
    match &errs[0].kind {
        DiagKind::DuplicateDefinition { name } => assert_eq!(name, &b"a".to_vec()),
        k => panic!("expected a duplicate definition, got {:?}", k),
    }
}

#[test]
fn fail_fast_truncates_to_first_error() {
    let src = b"a\\q{{ ! }}";
    let mut cfg = Config::default();
    cfg.error_mode = ErrorMode::FailFast;
    let ff = compile(src, &cfg).unwrap_err();
    assert_eq!(ff.len(), 1);
    let agg = compile(src, &Config::default()).unwrap_err();
    assert!(agg.len() > 1);
    assert_eq!(ff[0], agg[0]);
}

#[test]
fn blob_size_limit_enforced() {
    let mut cfg = Config::default();
    cfg.max_blob_size = 16;
    let errs = compile(b"hello", &cfg).unwrap_err();
    assert_eq!(errs[0].stage, Stage::Encode);
    assert!(matches!(errs[0].kind, DiagKind::PayloadTooLarge));
}

#[test]
fn nested_definition_is_unsupported_in_encoding() {
    let doc = Document {
        arena: vec![
            Node::Define { name: b"a".to_vec(), children: vec![], span: Span { lo: 0, hi: 0 } },
            Node::If { cond: b"c".to_vec(), children: vec![0], span: Span { lo: 0, hi: 0 } },
        ],
        roots: vec![1],
    };
    let e = encode(&doc, u32::MAX).unwrap_err();
    assert_eq!(e.stage, Stage::Encode);
    assert!(matches!(e.kind, DiagKind::UnsupportedConstruct));
}

#[test]
fn nested_definition_rejected_by_parser() {
    let errs = compile(b"{% if c %}{% define a %}x{% end %}{% end %}", &Config::default())
        .unwrap_err();
    assert_eq!(errs[0].stage, Stage::Parse);
    assert!(matches!(errs[0].kind, DiagKind::UnexpectedToken));
}

#[test]
fn for_and_call_nodes_encoded() {
    let mut cfg = Config::default();
    cfg.known_fragments = vec![b"row".to_vec()];
    let out = compile(b"{% for item %}{% call row %}{% end %}", &cfg).unwrap();
    let p = parse_blob(&out.blob.bytes);
    assert_eq!(p.pool, vec![b"item".to_vec(), b"row".to_vec()]);
    assert_eq!(p.recs, vec![(3, 0, 2), (5, 1, 1)]);
}

#[test]
fn checksum_depends_on_content() {
    let b1 = compile(b"aa", &Config::default()).unwrap().blob.bytes;
    let b2 = compile(b"ab", &Config::default()).unwrap().blob.bytes;
    let c1 = &b1[16..24];
    let c2 = &b2[16..24];
    assert_ne!(c1, c2);
    assert_ne!(c1, &[0u8; 8]);
}

#[test]
fn rendered_message_carries_stage_kind_and_span() {
    let errs = compile(b"{{name", &Config::default()).unwrap_err();
    let msg = frel_compiler::diag::render_diagnostic(&errs[0]);
    assert_eq!(
        String::from_utf8(msg).unwrap(),
        "lex: unterminated delimiter at bytes 0..6"
    );
}

#[test]
fn rendered_cycle_names_the_chain() {
    let src = b"{% define a %}{% include b %}{% end %}{% define b %}{% include a %}{% end %}";
    let errs = compile(src, &Config::default()).unwrap_err();
    let msg = String::from_utf8(frel_compiler::diag::render_diagnostic(&errs[0])).unwrap();
    assert!(msg.starts_with("validate: cyclic reference: a -> b at bytes"), "{}", msg);
}

#[test]
fn line_and_column_of_offsets() {
    let src = b"ab\ncd\n\nx";
    assert_eq!(frel_compiler::diag::line_col(src, 0), (1, 1));
    assert_eq!(frel_compiler::diag::line_col(src, 1), (1, 2));
    assert_eq!(frel_compiler::diag::line_col(src, 3), (2, 1));
    assert_eq!(frel_compiler::diag::line_col(src, 4), (2, 2));
    assert_eq!(frel_compiler::diag::line_col(src, 6), (3, 1));
    assert_eq!(frel_compiler::diag::line_col(src, 7), (4, 1));
}

#[test]
fn member_access_in_interpolation() {
    let out = compile(b"{{ user.name }}", &Config::default()).unwrap();
    let p = parse_blob(&out.blob.bytes);
    assert_eq!(p.pool, vec![b"user.name".to_vec()]);
    assert_eq!(p.recs, vec![(1, 0, 1)]);
}

#[test]
fn unterminated_with_trailing_whitespace() {
    let errs = compile(b"{{   ", &Config::default()).unwrap_err();
    assert!(matches!(errs[0].kind, DiagKind::UnterminatedDelimiter));
    assert_eq!(errs[0].span, Span { lo: 0, hi: 5 });
}

#[test]
fn lone_open_directive_unterminated() {
    let errs = compile(b"text{%", &Config::default()).unwrap_err();
    assert!(matches!(errs[0].kind, DiagKind::UnterminatedDelimiter));
}

#[test]
fn lone_braces_are_text() {
    let out = compile(b"a { b } c", &Config::default()).unwrap();
    let p = parse_blob(&out.blob.bytes);
    assert_eq!(p.pool, vec![b"a { b } c".to_vec()]);
    assert_eq!(p.recs, vec![(0, 0, 1)]);
}

#[test]
fn fail_fast_on_validation_errors() {
    let src = b"{% include one %}{% include two %}";
    let mut cfg = Config::default();
    cfg.error_mode = ErrorMode::FailFast;
    let ff = compile(src, &cfg).unwrap_err();
    assert_eq!(ff.len(), 1);
    let agg = compile(src, &Config::default()).unwrap_err();
    assert_eq!(agg.len(), 2);
}

#[test]
fn aggregate_mode_recovers_past_bad_directive() {
    let src = b"{% broken x %}{% also y %}";
    let errs = compile(src, &Config::default()).unwrap_err();
    assert_eq!(errs.len(), 2);
    assert!(matches!(errs[0].kind, DiagKind::UnknownDirective));
    assert!(matches!(errs[1].kind, DiagKind::UnknownDirective));
}
