use hexagen::engine::create_instruction_info;
use hexagen::expander::{expand, size_code, to_upper, to_upper_char};
use hexagen::hasher::gen_opcode;
use hexagen::resolver::{opcode_taken, resolve, MAX_PROBES};
use hexagen::{
    assign_all, get_instruction_info, AssignError, InstructionInfo, InstructionSize,
    RawInstructionInfo,
};

fn def(name: &str, size: InstructionSize, modes: Option<&str>, byte: Option<bool>) -> RawInstructionInfo {
    RawInstructionInfo {
        name: name.to_string(),
        size,
        mode_support: modes.map(|m| m.to_string()),
        has_byte_variant: byte,
        is_byte_variant: None,
    }
}

fn implied(name: &str) -> RawInstructionInfo {
    def(name, InstructionSize::Implied, None, None)
}

fn entry(k: &str, v: u8) -> (String, u8) {
    (k.to_string(), v)
}

fn label(v: u8, l: &str) -> (u8, String) {
    (v, l.to_string())
}

#[test]
fn gen_opcode_sums_code_points() {
    assert_eq!(gen_opcode("ADD"), 201);
    assert_eq!(gen_opcode(""), 0);
    assert_eq!(gen_opcode("AB"), gen_opcode("BA"));
}

#[test]
fn gen_opcode_wraps_modulo_256() {
    assert_eq!(gen_opcode("ZZZZ"), 104);
    assert_eq!(gen_opcode("\u{100}"), 0);
    assert_eq!(gen_opcode("\u{e9}"), 233);
}

#[test]
fn appending_a_space_adds_32() {
    assert_eq!(gen_opcode("AB "), 163);
    assert_eq!(gen_opcode("ZZZZ "), 136);
}

#[test]
fn upper_casing_is_ascii_only() {
    assert_eq!(to_upper("add"), "ADD");
    assert_eq!(to_upper("mOv1\u{e9}_z"), "MOV1\u{e9}_Z");
    assert_eq!(to_upper_char('q'), 'Q');
    assert_eq!(to_upper_char('{'), '{');
}

#[test]
fn size_codes() {
    assert_eq!(size_code(InstructionSize::Implied), 0);
    assert_eq!(size_code(InstructionSize::Single), 1);
    assert_eq!(size_code(InstructionSize::RegisterAndData), 2);
}

#[test]
fn single_keys_are_mode_characters() {
    let vs = expand(&def("add", InstructionSize::Single, Some("xy"), None));
    let keys: Vec<&str> = vs.iter().map(|v| v.key.as_str()).collect();
    let labels: Vec<&str> = vs.iter().map(|v| v.label.as_str()).collect();
    let seeds: Vec<&str> = vs.iter().map(|v| v.seed.as_str()).collect();
    assert_eq!(keys, vec!["x", "y"]);
    assert_eq!(labels, vec!["x", "y"]);
    assert_eq!(seeds, vec!["ADDx", "ADDy"]);
}

#[test]
fn register_keys_carry_the_register_marker() {
    let vs = expand(&def("add", InstructionSize::RegisterAndData, Some("xy"), None));
    let keys: Vec<&str> = vs.iter().map(|v| v.key.as_str()).collect();
    let labels: Vec<&str> = vs.iter().map(|v| v.label.as_str()).collect();
    let seeds: Vec<&str> = vs.iter().map(|v| v.seed.as_str()).collect();
    assert_eq!(keys, vec!["Rx", "Ry"]);
    assert_eq!(labels, vec!["x", "y"]);
    assert_eq!(seeds, vec!["ADDx", "ADDy"]);
}

#[test]
fn implied_has_the_single_marker_key() {
    let vs = expand(&def("nop", InstructionSize::Implied, Some("xy"), None));
    assert_eq!(vs.len(), 1);
    assert_eq!(vs[0].key, "M");
    assert_eq!(vs[0].label, "M");
    assert_eq!(vs[0].seed, "NOP");
}

#[test]
fn absent_modes_give_no_variants() {
    assert!(expand(&def("add", InstructionSize::Single, None, None)).is_empty());
    assert!(expand(&def("add", InstructionSize::RegisterAndData, Some(""), None)).is_empty());
}

#[test]
fn variant_key_shape_in_output() {
    let single = assign_all(&vec![def("add", InstructionSize::Single, Some("xy"), None)]).unwrap();
    let keys: Vec<&str> = single.info[0].opcode.iter().map(|e| e.0.as_str()).collect();
    assert_eq!(keys, vec!["x", "y"]);
    let reg = assign_all(&vec![def("add", InstructionSize::RegisterAndData, Some("xy"), None)]).unwrap();
    let keys: Vec<&str> = reg.info[0].opcode.iter().map(|e| e.0.as_str()).collect();
    assert_eq!(keys, vec!["Rx", "Ry"]);
    let imp = assign_all(&vec![implied("nop")]).unwrap();
    let keys: Vec<&str> = imp.info[0].opcode.iter().map(|e| e.0.as_str()).collect();
    assert_eq!(keys, vec!["M"]);
}

#[test]
fn opcode_taken_checks_membership() {
    assert!(opcode_taken(&vec![1, 2, 3], 2));
    assert!(!opcode_taken(&vec![1, 2, 3], 4));
    assert!(!opcode_taken(&vec![], 0));
}

#[test]
fn resolve_free_seed_is_kept() {
    assert_eq!(resolve("ADD", &vec![]), Ok((201, "ADD".to_string())));
    assert_eq!(resolve("ADD", &vec![1, 2]), Ok((201, "ADD".to_string())));
}

#[test]
fn resolve_appends_spaces_on_collision() {
    assert_eq!(resolve("AB", &vec![131]), Ok((163, "AB ".to_string())));
    assert_eq!(resolve("AB", &vec![163, 131]), Ok((195, "AB  ".to_string())));
}

#[test]
fn resolve_fails_when_every_probe_is_taken() {
    assert_eq!(MAX_PROBES, 100);
    let used: Vec<u8> = vec![131, 163, 195, 227, 3, 35, 67, 99];
    assert_eq!(resolve("AB", &used), Err(AssignError::OpcodeSpaceExhausted));
    let mut all: Vec<u8> = Vec::new();
    for b in 0..=255u8 {
        all.push(b);
    }
    assert_eq!(resolve("ADD", &all), Err(AssignError::OpcodeSpaceExhausted));
}

#[test]
fn colliding_pair_probes_the_second() {
    let out = assign_all(&vec![implied("ab"), implied("ba")]).unwrap();
    assert_eq!(out.info[0].name, "ab");
    assert_eq!(out.info[0].opcode, vec![entry("M", 131)]);
    assert_eq!(out.info[1].name, "ba");
    assert_eq!(out.info[1].opcode, vec![entry("M", 163)]);
    assert_eq!(out.opcodes, vec![label(131, "ab|M"), label(163, "ba|M")]);
}

#[test]
fn order_of_definitions_changes_assignment() {
    let one = assign_all(&vec![implied("ab"), implied("ba")]).unwrap();
    let two = assign_all(&vec![implied("ba"), implied("ab")]).unwrap();
    let ab1 = &get_instruction_info(&one.info, "ab").unwrap().opcode;
    let ab2 = &get_instruction_info(&two.info, "ab").unwrap().opcode;
    assert_eq!(ab1, &vec![entry("M", 131)]);
    assert_eq!(ab2, &vec![entry("M", 163)]);
    assert_ne!(ab1, ab2);
    assert_ne!(one.info[0].opcode[0].1, one.info[1].opcode[0].1);
    assert_ne!(two.info[0].opcode[0].1, two.info[1].opcode[0].1);
}

#[test]
fn byte_variant_adds_a_derived_record() {
    let out = assign_all(&vec![def("add", InstructionSize::Single, Some("x"), Some(true))]).unwrap();
    assert_eq!(out.info.len(), 2);
    assert_eq!(out.info[0].name, "addb");
    assert!(out.info[0].byte);
    assert_eq!(out.info[0].size, 1);
    assert_eq!(out.info[0].opcode, vec![entry("x", 131)]);
    assert_eq!(out.info[1].name, "add");
    assert!(!out.info[1].byte);
    assert_eq!(out.info[1].opcode, vec![entry("x", 65)]);
    assert_eq!(out.opcodes, vec![label(65, "add|x"), label(131, "addb|x")]);
}

#[test]
fn byte_variant_flag_false_adds_nothing() {
    let out = assign_all(&vec![def("add", InstructionSize::Single, Some("x"), Some(false))]).unwrap();
    assert_eq!(out.info.len(), 1);
    assert_eq!(out.info[0].name, "add");
}

#[test]
fn input_byte_flag_is_copied() {
    let mut d = implied("nop");
    d.is_byte_variant = Some(true);
    let out = assign_all(&vec![d]).unwrap();
    assert!(out.info[0].byte);
    assert_eq!(out.info[0].size, 0);
}

#[test]
fn register_labels_use_the_mode_character() {
    let out = assign_all(&vec![def("add", InstructionSize::RegisterAndData, Some("x"), None)]).unwrap();
    assert_eq!(out.info[0].size, 2);
    assert_eq!(out.info[0].opcode, vec![entry("Rx", 65)]);
    assert_eq!(out.opcodes, vec![label(65, "add|x")]);
}

#[test]
fn repeated_mode_keeps_one_key() {
    let out = assign_all(&vec![def("add", InstructionSize::Single, Some("xx"), None)]).unwrap();
    assert_eq!(out.info[0].opcode, vec![entry("x", 97)]);
    assert_eq!(out.opcodes, vec![label(65, "add|x"), label(97, "add|x")]);
}

fn sample() -> Vec<RawInstructionInfo> {
    vec![
        implied("nop"),
        implied("hlt"),
        def("add", InstructionSize::Single, Some("irm"), Some(true)),
        def("sub", InstructionSize::Single, Some("irm"), Some(true)),
        def("mov", InstructionSize::RegisterAndData, Some("irm"), Some(true)),
        def("jmp", InstructionSize::Single, Some("ia"), None),
        implied("ab"),
        implied("ba"),
    ]
}

#[test]
fn opcodes_are_globally_unique() {
    let out = assign_all(&sample()).unwrap();
    let mut seen: Vec<u8> = Vec::new();
    for rec in &out.info {
        for (_, b) in &rec.opcode {
            assert!(!seen.contains(b));
            seen.push(*b);
        }
    }
    assert_eq!(seen.len(), 24);
    assert_eq!(out.opcodes.len(), seen.len());
    for (i, a) in out.opcodes.iter().enumerate() {
        for b in out.opcodes.iter().skip(i + 1) {
            assert_ne!(a.0, b.0);
        }
    }
    assert_eq!(out.info.len(), 11);
}

#[test]
fn runs_are_deterministic() {
    let one = assign_all(&sample()).unwrap();
    let two = assign_all(&sample()).unwrap();
    assert_eq!(one, two);
}

#[test]
fn exhaustion_fails_the_run() {
    let names = ["AB", "BA", "C@", "@C", "D?", "?D", "E>", ">E"];
    let defs: Vec<RawInstructionInfo> = names.iter().map(|n| implied(n)).collect();
    let out = assign_all(&defs).unwrap();
    let mut got: Vec<u8> = out.opcodes.iter().map(|e| e.0).collect();
    got.sort();
    assert_eq!(got, vec![3, 35, 67, 99, 131, 163, 195, 227]);
    let mut more = defs.clone();
    more.push(implied("F="));
    assert_eq!(assign_all(&more), Err(AssignError::OpcodeSpaceExhausted));
}

#[test]
fn create_extends_shared_state() {
    let mut used: Vec<u8> = vec![131];
    let mut info: Vec<InstructionInfo> = Vec::new();
    let mut table: Vec<(u8, String)> = vec![label(131, "ab|M")];
    assert_eq!(create_instruction_info(&implied("ba"), &mut used, &mut info, &mut table), Ok(()));
    assert_eq!(used, vec![131, 163]);
    assert_eq!(table, vec![label(131, "ab|M"), label(163, "ba|M")]);
    assert_eq!(info, vec![InstructionInfo::new("ba".to_string(), 0, vec![entry("M", 163)], false)]);
}

#[test]
fn create_failure_leaves_records() {
    let mut used: Vec<u8> = (0..=255u8).collect();
    let mut info: Vec<InstructionInfo> = Vec::new();
    let mut table: Vec<(u8, String)> = Vec::new();
    let r = create_instruction_info(&implied("nop"), &mut used, &mut info, &mut table);
    assert_eq!(r, Err(AssignError::OpcodeSpaceExhausted));
    assert!(info.is_empty());
}

#[test]
fn lookup_by_name() {
    let out = assign_all(&sample()).unwrap();
    let add = get_instruction_info(&out.info, "add").unwrap();
    assert_eq!(add.name, "add");
    assert!(!add.byte);
    assert_eq!(add.opcode.len(), 3);
    let addb = get_instruction_info(&out.info, "addb").unwrap();
    assert!(addb.byte);
    assert_eq!(get_instruction_info(&out.info, "xyz"), None);
    assert_eq!(get_instruction_info(&[], "add"), None);
}

#[test]
fn lookup_returns_first_match() {
    let a = InstructionInfo::new("x".to_string(), 0, vec![entry("M", 1)], false);
    let b = InstructionInfo::new("x".to_string(), 1, vec![entry("M", 2)], true);
    assert_eq!(get_instruction_info(&[a.clone(), b], "x"), Some(a));
}

#[test]
fn empty_input_gives_empty_tables() {
    let out = assign_all(&vec![]).unwrap();
    assert!(out.info.is_empty());
    assert!(out.opcodes.is_empty());
}
