//! Finding the trampolines into the VM section.

use tvm_devirt::vm::discover::{find_vm_entries, is_mid_instruction, VmEntry};
use tvm_devirt::vm::image::{Image, Section};
use tvm_devirt::vm::DEFAULT_VM_SECTION;

fn section(name: &str, start: u64, data: Vec<u8>, executable: bool) -> Section {
    Section {
        name: name.into(),
        start,
        virtual_size: 0x1000,
        raw_size: data.len() as u32,
        data,
        writable: false,
        executable,
    }
}

fn image(text: Vec<u8>, functions: Vec<(u64, u64)>) -> Image {
    Image {
        sections: vec![
            section(".text", 0x1000, text, true),
            section(DEFAULT_VM_SECTION, 0x3000, vec![0xe9, 0, 0, 0, 0, 0x90], true),
        ],
        imports: Vec::new(),
        functions,
    }
}

fn entry(trampoline_va: u64, vm_entry_va: u64, int3_padding: usize) -> VmEntry {
    VmEntry { trampoline_va, vm_entry_va, int3_padding }
}

/// A jump from `at` to 0x3010.
fn jump(at: u64) -> Vec<u8> {
    let rel = 0x3010u64.wrapping_sub(at + 5) as u32;
    let mut v = vec![0xe9];
    v.extend_from_slice(&rel.to_le_bytes());
    v
}

#[test]
fn a_jump_into_the_vm_section_is_an_entry() {
    let mut text = vec![0x90];
    text.extend(jump(0x1001));
    text.extend([0xcc, 0xcc, 0xcc, 0x90]);
    let pe = image(text, Vec::new());
    assert_eq!(find_vm_entries(&pe, DEFAULT_VM_SECTION), vec![entry(0x1001, 0x3010, 3)]);
    // Without the section there is nothing to enter.
    assert!(find_vm_entries(&pe, ".other").is_empty());
}

#[test]
fn only_jumps_that_land_in_the_vm_section_count() {
    // To 0x1010, which is ordinary code.
    let pe = image(vec![0xe9, 0x0b, 0, 0, 0], Vec::new());
    assert!(find_vm_entries(&pe, DEFAULT_VM_SECTION).is_empty());
    // One past the section's end.
    let mut text = vec![0xe9];
    text.extend_from_slice(&(0x4000u32 - 0x1005).to_le_bytes());
    assert!(find_vm_entries(&image(text, Vec::new()), DEFAULT_VM_SECTION).is_empty());
    // Too short to be a jump.
    assert!(find_vm_entries(&image(vec![0xe9, 0], Vec::new()), DEFAULT_VM_SECTION).is_empty());
    // In a section that is not executable.
    let mut pe = image(jump(0x1000), Vec::new());
    pe.sections[0].executable = false;
    assert!(find_vm_entries(&pe, DEFAULT_VM_SECTION).is_empty());
}

#[test]
fn a_jump_byte_within_an_instruction_is_no_entry() {
    // mov eax,imm32, whose immediate begins with a jump byte.
    let mut text = vec![0xb8];
    text.extend(jump(0x1001));
    let pe = image(text.clone(), vec![(0x1000, 0x1006)]);
    assert!(is_mid_instruction(&pe, 0x1001));
    assert!(!is_mid_instruction(&pe, 0x1000));
    assert!(find_vm_entries(&pe, DEFAULT_VM_SECTION).is_empty());
    // Without a function around it there is no evidence against it.
    let pe = image(text, Vec::new());
    assert!(!is_mid_instruction(&pe, 0x1001));
    assert_eq!(find_vm_entries(&pe, DEFAULT_VM_SECTION).len(), 1);
    // Nor where bytes before it cannot be decoded.
    let mut text = vec![0x06, 0xb8];
    text.extend(jump(0x1002));
    let pe = image(text, vec![(0x1000, 0x1007)]);
    assert!(!is_mid_instruction(&pe, 0x1002));
}

#[test]
fn a_function_in_the_padding_was_swallowed() {
    let mut text = jump(0x1000);
    text.extend([0xcc; 16]);
    let pe = image(text, vec![(0x1000, 0x1005), (0x1008, 0x1010), (0x1012, 0x1020)]);
    assert_eq!(
        find_vm_entries(&pe, DEFAULT_VM_SECTION),
        vec![entry(0x1000, 0x3010, 16), entry(0x1008, 0x3010, 0)],
        "the last function is not wholly in the padding"
    );
}

#[test]
fn entries_come_in_order() {
    let mut pe = image(jump(0x1000), Vec::new());
    let mut low = section(".init", 0x800, jump(0x800), true);
    low.virtual_size = 0x10;
    pe.sections.push(low);
    let vas: Vec<u64> =
        find_vm_entries(&pe, DEFAULT_VM_SECTION).iter().map(|e| e.trampoline_va).collect();
    assert_eq!(vas, vec![0x800, 0x1000]);
}
