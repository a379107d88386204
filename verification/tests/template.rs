use rpx_patch::error::Error;
use rpx_patch::ini::{IniDocument, IniEntry, IniSection};
use rpx_patch::number::Number;
use rpx_patch::patch::Patch;
use rpx_patch::resolve::Variable;
use rpx_patch::template::{
    assembly_request, compile_step, encoding_text, instructions_from, normalize_registers,
    parse_address, patch_from_assembly, select_patch_file, substitute, template_instructions,
    AssemblyOutcome, AssemblyRequest, CompileAction, Instruction,
};
use rpx_patch::text::{chars_of, string_of};

fn entry(key: &str, value: Option<&str>) -> IniEntry {
    IniEntry { key: key.to_string(), value: value.map(|v| v.to_string()), reading: None }
}

fn instruction(key: &str, text: &str) -> Instruction {
    Instruction { key: key.to_string(), text: text.to_string() }
}

fn variable(name: &str, value: Number) -> Variable {
    Variable { name: name.to_string(), value }
}

const TEMPLATE: &str = "[Other]\nmoduleMatches = 0x12345678\n0x02000000 = nop\n\n[Main]\nmoduleMatches = 0x6267BFD0\n0x02A3B4C8 = li r3, $fps\n0x02A3B4CC = lfs f1, 0(r4) ; load\nnote = 0x10\n0x02A3B4D0\n";

#[test]
fn patch_file_is_the_first_whose_name_begins_with_patch() {
    let names = vec![
        "rules.txt".to_string(),
        "Patch.asm".to_string(),
        "patch_Main.asm".to_string(),
        "patches.txt".to_string(),
    ];
    assert_eq!(select_patch_file(&names), Ok(2));
    assert_eq!(select_patch_file(&vec!["patch".to_string()]), Ok(0));
}

#[test]
fn directory_without_patch_file() {
    assert_eq!(select_patch_file(&vec![]), Err(Error::NoPatchFile));
    let names = vec!["rules.txt".to_string(), "a_patch.asm".to_string(), "patc".to_string()];
    assert_eq!(select_patch_file(&names), Err(Error::NoPatchFile));
}

#[test]
fn variables_are_replaced_by_their_values() {
    let variables = vec![
        variable("$fps:int", Number::Integer(60)),
        variable("$scale", Number::Float("1.5".to_string())),
    ];
    let out = substitute(&chars_of("li r3, $fps ; $scale x $fps"), &variables);
    assert_eq!(string_of(&out), "li r3, 60 ; 1.5 x 60");
}

#[test]
fn substitution_is_blind_and_in_order() {
    let variables = vec![
        variable("$a", Number::Integer(1)),
        variable("$ab", Number::Integer(2)),
    ];
    let out = substitute(&chars_of("$ab $a"), &variables);
    assert_eq!(string_of(&out), "1b 1");
    let variables = vec![
        variable("$ab", Number::Integer(2)),
        variable("$a", Number::Integer(1)),
    ];
    let out = substitute(&chars_of("$ab $a"), &variables);
    assert_eq!(string_of(&out), "2 1");
}

#[test]
fn template_gives_the_instructions_of_the_expected_module() {
    let variables = vec![variable("$fps", Number::Integer(60))];
    let found = template_instructions(TEMPLATE, &variables).unwrap();
    assert_eq!(
        found,
        vec![
            instruction("0x02a3b4c8", "li r3, 60"),
            instruction("0x02a3b4cc", "lfs f1, 0(r4)"),
        ]
    );
}

#[test]
fn template_with_code_cave_is_refused() {
    let text = format!("{}\n[Cave]\nmoduleMatches = 0x6267BFD0\n.origin = codecave\n", TEMPLATE);
    assert_eq!(template_instructions(&text, &vec![]), Err(Error::UnsupportedFeature));
    let text = format!("; codeCave\n{}", TEMPLATE);
    assert_eq!(template_instructions(&text, &vec![]), Err(Error::UnsupportedFeature));
    assert_eq!(template_instructions("codecave", &vec![]), Err(Error::UnsupportedFeature));
}

#[test]
fn code_cave_brought_in_by_a_value_is_not_looked_for() {
    let text = "[Main]\nmoduleMatches = 0x6267BFD0\n0x10 = b code$x\n";
    let variables = vec![variable("$x", Number::Integer(1))];
    assert_eq!(
        template_instructions(text, &variables),
        Ok(vec![instruction("0x10", "b code1")])
    );
}

#[test]
fn template_without_the_expected_module() {
    let text = "[Other]\nmoduleMatches = 0x12345678\n0x02000000 = nop\n";
    assert_eq!(template_instructions(text, &vec![]), Err(Error::ModuleMismatch));
    let text = "[Other]\n0x02000000 = nop\n[More]\nmoduleMatches\n";
    assert_eq!(template_instructions(text, &vec![]), Err(Error::ModuleMismatch));
    let text = "[Other]\nmoduleMatches = 0x6267bfd0\n";
    assert_eq!(template_instructions(text, &vec![]), Err(Error::ModuleMismatch));
    assert_eq!(template_instructions("", &vec![]), Err(Error::ModuleMismatch));
}

#[test]
fn template_that_the_reader_refuses() {
    assert_eq!(template_instructions("[Main\n", &vec![]), Err(Error::InvalidTemplate));
    assert_eq!(template_instructions("] [\n", &vec![]), Err(Error::InvalidTemplate));
}

#[test]
fn label_line_is_taken_out_and_its_name_replaced() {
    let text = "[Main]\nmoduleMatches = 0x6267BFD0\n0x1000 = target:\n0x2000 = b target\n0x3000 = bl target\n";
    let found = template_instructions(text, &vec![]).unwrap();
    assert_eq!(
        found,
        vec![instruction("0x2000", "b 0x1000"), instruction("0x3000", "bl 0x1000")]
    );
}

#[test]
fn label_declared_on_one_line_and_given_on_the_next() {
    let text = "[Main]\nmoduleMatches = 0x6267BFD0\n0x1000 = entry:\r\nentry = li r3, 1\r\n";
    let found = template_instructions(text, &vec![]).unwrap();
    assert_eq!(found, vec![instruction("0x1000", "li r3, 1")]);
}

#[test]
fn instructions_come_from_the_first_matching_section() {
    let doc = IniDocument {
        sections: vec![
            IniSection {
                name: "a".to_string(),
                entries: vec![entry("modulematches", None), entry("0x1", Some("nop"))],
            },
            IniSection {
                name: "b".to_string(),
                entries: vec![
                    entry("0x30", Some("li r3, 1")),
                    entry("modulematches", Some("0x6267BFD0")),
                    entry("0x20", None),
                    entry("x10", Some("nop")),
                    entry("0x10", Some("")),
                ],
            },
            IniSection {
                name: "c".to_string(),
                entries: vec![
                    entry("modulematches", Some("0x6267BFD0")),
                    entry("0x40", Some("nop")),
                ],
            },
        ],
    };
    assert_eq!(
        instructions_from(&doc),
        Ok(vec![instruction("0x30", "li r3, 1"), instruction("0x10", "")])
    );
}

#[test]
fn document_without_matching_section() {
    let doc = IniDocument {
        sections: vec![IniSection {
            name: "a".to_string(),
            entries: vec![entry("modulematches", Some("0x6267BFD1")), entry("0x1", Some("nop"))],
        }],
    };
    assert_eq!(instructions_from(&doc), Err(Error::ModuleMismatch));
    assert_eq!(
        instructions_from(&IniDocument { sections: vec![] }),
        Err(Error::ModuleMismatch)
    );
}

#[test]
fn addresses_are_read_from_keys() {
    assert_eq!(parse_address("0x10"), Ok(0x10));
    assert_eq!(parse_address("0x02a3b4c8"), Ok(0x02A3B4C8));
    assert_eq!(parse_address("0x02A3B4C8"), Ok(0x02A3B4C8));
    assert_eq!(parse_address("0xffffffff"), Ok(u32::MAX));
    assert_eq!(parse_address("0x0000000000000001"), Ok(1));
    assert_eq!(parse_address("0x0"), Ok(0));
}

#[test]
fn malformed_addresses_are_refused() {
    for key in ["0x", "0xg", "0x12 ", "0x100000000", "0x0x12", "0x+12", "0x-1", "12", "0X12", ""] {
        assert_eq!(parse_address(key), Err(Error::BadAddress), "for {:?}", key);
    }
}

#[test]
fn registers_lose_their_prefix() {
    assert_eq!(normalize_registers("li r3, 1"), Ok("li 3, 1".to_string()));
    assert_eq!(normalize_registers("lfs f1, 0(r4)"), Ok("lfs 1, 0(4)".to_string()));
    assert_eq!(normalize_registers("add r31, r0, r12"), Ok("add 31, 0, 12".to_string()));
    assert_eq!(normalize_registers("nop"), Ok("nop".to_string()));
    assert_eq!(normalize_registers("mr r, f"), Ok("mr r, f".to_string()));
    assert_eq!(normalize_registers("r3"), Ok("3".to_string()));
    assert_eq!(normalize_registers("mr r100, f007"), Ok("mr 100, 007".to_string()));
}

#[test]
fn only_whole_tokens_are_registers() {
    assert_eq!(normalize_registers("lis r3, 0x3f80"), Ok("lis 3, 0x3f80".to_string()));
    assert_eq!(normalize_registers("li r3, 0xf1"), Ok("li 3, 0xf1".to_string()));
    assert_eq!(
        normalize_registers("lis r12, 0x3f800000@h"),
        Ok("lis 12, 0x3f800000@h".to_string())
    );
    assert_eq!(normalize_registers("stw r0, 0x1f4(r1)"), Ok("stw 0, 0x1f4(1)".to_string()));
    assert_eq!(normalize_registers("b 0x02af1234"), Ok("b 0x02af1234".to_string()));
    assert_eq!(normalize_registers("mfcr r3 ; cr7 xer1"), Ok("mfcr 3 ; cr7 xer1".to_string()));
    assert_eq!(normalize_registers("b r3_loop"), Ok("b r3_loop".to_string()));
    assert_eq!(normalize_registers("b loop_r3"), Ok("b loop_r3".to_string()));
    assert_eq!(normalize_registers("add r3,r4,-r5"), Ok("add 3,4,-5".to_string()));
    assert_eq!(
        assembly_request(&instruction("0x10", "lis r3, 0x3f80")),
        Ok(AssemblyRequest { address: 0x10, instruction: "lis 3, 0x3f80".to_string() })
    );
}

#[test]
fn encoding_is_written_as_json_text() {
    assert_eq!(encoding_text(&vec![]), "[]");
    assert_eq!(encoding_text(&vec![0]), "[0]");
    assert_eq!(encoding_text(&vec![56, 96, 0, 60]), "[56,96,0,60]");
    assert_eq!(encoding_text(&vec![255, 0, 10, 100, 9]), "[255,0,10,100,9]");
    for bytes in [vec![], vec![7u8], vec![1, 2], vec![0x4E, 0x80, 0x00, 0x20], vec![255; 9]] {
        assert_eq!(encoding_text(&bytes), serde_json::to_string(&bytes).unwrap());
    }
}

#[test]
fn request_holds_address_and_plain_instruction() {
    assert_eq!(
        assembly_request(&instruction("0x02a3b4c8", "li r3, 60")),
        Ok(AssemblyRequest { address: 0x02A3B4C8, instruction: "li 3, 60".to_string() })
    );
    assert_eq!(
        assembly_request(&instruction("0xnone", "li r3, 60")),
        Err(Error::BadAddress)
    );
}

#[test]
fn patch_takes_the_first_four_bytes_of_the_encoding() {
    assert_eq!(
        patch_from_assembly(0x10, &AssemblyOutcome::Encoded(vec![0x38, 0x60, 0x00, 0x3C])),
        Ok(Patch { address: 0x10, opcode: [0x38, 0x60, 0x00, 0x3C] })
    );
    assert_eq!(
        patch_from_assembly(0x10, &AssemblyOutcome::Encoded(vec![1, 2, 3, 4, 5, 6, 7, 8])),
        Ok(Patch { address: 0x10, opcode: [1, 2, 3, 4] })
    );
}

#[test]
fn rejected_or_short_encoding_gives_up() {
    assert_eq!(
        patch_from_assembly(0x10, &AssemblyOutcome::Rejected("ERR_ASM_MNEMONICFAIL".to_string())),
        Err(Error::AssemblyFailed { address: 0x10, message: "ERR_ASM_MNEMONICFAIL".to_string() })
    );
    assert_eq!(
        patch_from_assembly(0x10, &AssemblyOutcome::Encoded(vec![1, 2, 3])),
        Err(Error::ShortEncoding { address: 0x10 })
    );
    assert_eq!(
        patch_from_assembly(0x10, &AssemblyOutcome::Encoded(vec![])),
        Err(Error::ShortEncoding { address: 0x10 })
    );
}

#[test]
fn instructions_keep_the_order_of_the_file() {
    let text = "[Main]\n0x30 = nop\nmoduleMatches = 0x6267BFD0\n0x10 = li r3, 1\n0x20 = blr\n0x30 = mr r3, r4\n";
    assert_eq!(
        template_instructions(text, &vec![]),
        Ok(vec![
            instruction("0x30", "mr r3, r4"),
            instruction("0x10", "li r3, 1"),
            instruction("0x20", "blr"),
        ])
    );
}

fn request(address: u32, text: &str) -> CompileAction {
    CompileAction::Assemble(AssemblyRequest { address, instruction: text.to_string() })
}

#[test]
fn compilation_makes_one_patch_for_each_instruction() {
    let instructions = vec![instruction("0x20", "li r3, 1"), instruction("0x10", "blr")];
    let mut patches = vec![];
    assert_eq!(compile_step(&instructions, &mut patches, None), request(0x20, "li 3, 1"));
    assert_eq!(patches, vec![]);
    let answer = AssemblyOutcome::Encoded(vec![0x38, 0x60, 0x00, 0x01]);
    assert_eq!(compile_step(&instructions, &mut patches, Some(answer)), request(0x10, "blr"));
    assert_eq!(patches, vec![Patch { address: 0x20, opcode: [0x38, 0x60, 0x00, 0x01] }]);
    let answer = AssemblyOutcome::Encoded(vec![0x4E, 0x80, 0x00, 0x20]);
    let made = vec![
        Patch { address: 0x20, opcode: [0x38, 0x60, 0x00, 0x01] },
        Patch { address: 0x10, opcode: [0x4E, 0x80, 0x00, 0x20] },
    ];
    assert_eq!(
        compile_step(&instructions, &mut patches, Some(answer)),
        CompileAction::Finish(Ok(made.clone()))
    );
    assert_eq!(patches, made);
}

#[test]
fn compilation_of_no_instructions_ends_at_once() {
    let mut patches = vec![];
    assert_eq!(compile_step(&vec![], &mut patches, None), CompileAction::Finish(Ok(vec![])));
    let answer = AssemblyOutcome::Encoded(vec![1, 2, 3, 4]);
    assert_eq!(
        compile_step(&vec![], &mut patches, Some(answer)),
        CompileAction::Finish(Ok(vec![]))
    );
}

#[test]
fn compilation_ends_with_the_first_error() {
    let instructions =
        vec![instruction("0x20", "li r3, 1"), instruction("0xzz", "blr"), instruction("0x30", "x")];
    let mut patches = vec![];
    assert_eq!(compile_step(&instructions, &mut patches, None), request(0x20, "li 3, 1"));
    let rejected = AssemblyOutcome::Rejected("no".to_string());
    assert_eq!(
        compile_step(&instructions, &mut patches, Some(rejected)),
        CompileAction::Finish(Err(Error::AssemblyFailed { address: 0x20, message: "no".to_string() }))
    );
    assert_eq!(patches, vec![]);
    let short = AssemblyOutcome::Encoded(vec![1, 2]);
    assert_eq!(
        compile_step(&instructions, &mut patches, Some(short)),
        CompileAction::Finish(Err(Error::ShortEncoding { address: 0x20 }))
    );
    let answer = AssemblyOutcome::Encoded(vec![1, 2, 3, 4]);
    assert_eq!(
        compile_step(&instructions, &mut patches, Some(answer)),
        CompileAction::Finish(Err(Error::BadAddress))
    );
    assert_eq!(patches, vec![Patch { address: 0x20, opcode: [1, 2, 3, 4] }]);
    assert_eq!(
        compile_step(&instructions, &mut patches, None),
        CompileAction::Finish(Err(Error::BadAddress))
    );
}
