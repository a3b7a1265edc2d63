use dpu_cluster_core::program::Program;

#[test]
fn a_program_has_its_sections_at_address_zero() {
    let program = Program::new(vec![1, 2, 3], vec![4, 5], Some(String::from("dpu.bin")));
    assert_eq!(program.iram_sections, vec![(0u16, vec![1u64, 2, 3])]);
    assert_eq!(program.wram_sections, vec![(0u32, vec![4u32, 5])]);
    assert_eq!(program.binary_file, Some(String::from("dpu.bin")));
    assert_eq!(program.size(), (3, 8));
}

#[test]
fn raw_bytes_are_packed_least_significant_byte_first() {
    let iram = vec![0x01, 0x02, 0x03, 0x04, 0x05, 0x06, 0x07, 0x08, 0xff];
    let wram = vec![0x78, 0x56, 0x34, 0x12, 0xef, 0xbe];
    let program = Program::new_raw(iram, wram);
    assert_eq!(program.iram_sections, vec![(0u16, vec![0x0807_0605_0403_0201u64, 0xff])]);
    assert_eq!(program.wram_sections, vec![(0u32, vec![0x1234_5678u32, 0xbeef])]);
    assert_eq!(program.binary_file, None);
}

#[test]
fn no_raw_bytes_make_empty_sections() {
    let program = Program::new_raw(Vec::new(), Vec::new());
    assert_eq!(program.iram_sections, vec![(0u16, Vec::<u64>::new())]);
    assert_eq!(program.wram_sections, vec![(0u32, Vec::<u32>::new())]);
    assert_eq!(program.size(), (0, 0));
}

#[test]
fn ten_instructions_count_as_ten() {
    let program = Program::new_raw(vec![0u8; 80], vec![0u8; 10]);
    assert_eq!(program.size(), (10, 12));
}
