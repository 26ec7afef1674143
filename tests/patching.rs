use rtil::{decode_redirect, redirect_bytes, CodeMemory, HookError, HookSite, PAGE_SIZE};

fn sample_code() -> Vec<u8> {
    (0u8..64).map(|b| b.wrapping_mul(7).wrapping_add(3)).collect()
}

#[test]
fn redirect_is_mov_eax_then_jmp_eax() {
    assert_eq!(redirect_bytes(0x1234_5678), vec![0xb8, 0x78, 0x56, 0x34, 0x12, 0xff, 0xe0]);
    assert_eq!(redirect_bytes(0), vec![0xb8, 0, 0, 0, 0, 0xff, 0xe0]);
}

#[test]
fn redirect_decodes_back_to_its_entry() {
    for entry in [0u32, 1, 0xdead_beef, u32::MAX, 0x0040_1000] {
        assert_eq!(decode_redirect(&redirect_bytes(entry)), Some(entry));
    }
}

#[test]
fn other_bytes_are_no_redirect() {
    assert_eq!(decode_redirect(&vec![0x55, 0x8b, 0xec, 0x83, 0xec, 0x10, 0x53]), None);
    assert_eq!(decode_redirect(&vec![0xb8, 1, 2, 3, 4, 0xff]), None);
    assert_eq!(decode_redirect(&vec![0xb8, 1, 2, 3, 4, 0xff, 0xe1]), None);
    assert_eq!(decode_redirect(&vec![]), None);
}

#[test]
fn code_is_padded_to_whole_executable_pages() {
    let mem = CodeMemory::from_code(vec![1, 2, 3]);
    assert_eq!(mem.len(), PAGE_SIZE);
    assert_eq!(mem.page_count(), 1);
    assert!(!mem.page_is_writable(0));
    assert_eq!(mem.read(0, 4), vec![1, 2, 3, 0]);
    assert_eq!(CodeMemory::from_code(vec![]).len(), 0);
    assert_eq!(CodeMemory::from_code(vec![9; PAGE_SIZE]).len(), PAGE_SIZE);
    assert_eq!(CodeMemory::from_code(vec![9; PAGE_SIZE + 1]).page_count(), 2);
}

#[test]
fn protection_flips_only_the_covering_pages() {
    let mut mem = CodeMemory::from_code(vec![0; 3 * PAGE_SIZE]);
    assert_eq!(mem.make_writable(PAGE_SIZE - 2, 4), Ok(()));
    assert!(mem.page_is_writable(0));
    assert!(mem.page_is_writable(1));
    assert!(!mem.page_is_writable(2));
    mem.write(PAGE_SIZE - 2, &vec![5, 6, 7, 8]);
    assert_eq!(mem.read(PAGE_SIZE - 3, 6), vec![0, 5, 6, 7, 8, 0]);
    assert_eq!(mem.make_executable(PAGE_SIZE - 2, 4), Ok(()));
    assert!(!mem.page_is_writable(0));
    assert!(!mem.page_is_writable(1));
}

#[test]
fn protection_change_fails_outside_mapped_memory() {
    let mut mem = CodeMemory::from_code(vec![0; PAGE_SIZE]);
    assert_eq!(mem.make_writable(PAGE_SIZE - 3, 4), Err(HookError::ProtectionChangeFailed));
    assert_eq!(mem.make_writable(0, 0), Err(HookError::ProtectionChangeFailed));
    assert_eq!(mem.make_executable(PAGE_SIZE, 1), Err(HookError::ProtectionChangeFailed));
    assert!(!mem.page_is_writable(0));
}

#[test]
fn install_writes_redirect_and_saves_original() {
    let code = sample_code();
    let mut mem = CodeMemory::from_code(code.clone());
    let mut site = HookSite::new(16, 0x0040_2000);
    assert_eq!(site.install(&mut mem), Ok(()));
    assert!(site.is_hooked());
    assert_eq!(mem.read(16, 7), redirect_bytes(0x0040_2000));
    assert_eq!(site.saved_bytes(), code[16..23].to_vec());
    assert_eq!(mem.read(0, 16), code[0..16].to_vec());
    assert_eq!(mem.read(23, 41), code[23..64].to_vec());
    assert!(!mem.page_is_writable(0));
}

#[test]
fn install_then_uninstall_restores_bytes() {
    let code = sample_code();
    let mut mem = CodeMemory::from_code(code.clone());
    let before = mem.read(0, mem.len());
    let mut site = HookSite::new(30, 0xcafe_f00d);
    assert_eq!(site.install(&mut mem), Ok(()));
    assert_ne!(mem.read(0, mem.len()), before);
    assert_eq!(site.uninstall(&mut mem), Ok(()));
    assert!(!site.is_hooked());
    assert_eq!(mem.read(0, mem.len()), before);
    assert!(!mem.page_is_writable(0));
}

#[test]
fn double_install_is_refused_and_changes_nothing() {
    let mut mem = CodeMemory::from_code(sample_code());
    let mut site = HookSite::new(8, 0x1000);
    assert_eq!(site.install(&mut mem), Ok(()));
    let patched = mem.read(0, mem.len());
    let saved = site.saved_bytes();
    assert_eq!(site.install(&mut mem), Err(HookError::DoubleInstall));
    assert_eq!(mem.read(0, mem.len()), patched);
    assert_eq!(site.saved_bytes(), saved);
    assert!(site.is_hooked());
}

#[test]
fn uninstall_of_unhooked_site_is_refused() {
    let mut mem = CodeMemory::from_code(sample_code());
    let before = mem.read(0, mem.len());
    let mut site = HookSite::new(8, 0x1000);
    assert_eq!(site.uninstall(&mut mem), Err(HookError::DoubleUninstall));
    assert_eq!(site.install(&mut mem), Ok(()));
    assert_eq!(site.uninstall(&mut mem), Ok(()));
    assert_eq!(site.uninstall(&mut mem), Err(HookError::DoubleUninstall));
    assert_eq!(mem.read(0, mem.len()), before);
}

#[test]
fn install_outside_mapped_memory_changes_nothing() {
    let mut mem = CodeMemory::from_code(sample_code());
    let before = mem.read(0, mem.len());
    let mut site = HookSite::new(PAGE_SIZE - 3, 0x1000);
    assert_eq!(site.install(&mut mem), Err(HookError::ProtectionChangeFailed));
    assert!(!site.is_hooked());
    assert!(site.saved_bytes().is_empty());
    assert_eq!(mem.read(0, mem.len()), before);
    assert!(!mem.page_is_writable(0));
}

#[test]
fn site_keeps_its_target_and_entry() {
    let site = HookSite::new(42, 0x7777);
    assert_eq!(site.target(), 42);
    assert_eq!(site.entry(), 0x7777);
    assert!(!site.is_hooked());
}
