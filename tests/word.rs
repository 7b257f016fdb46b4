use deet::word::{align_addr_to_word, patch_word};

#[test]
fn align_rounds_down_to_word() {
    assert_eq!(align_addr_to_word(0x1000), 0x1000);
    assert_eq!(align_addr_to_word(0x1007), 0x1000);
    assert_eq!(align_addr_to_word(0x1008), 0x1008);
    assert_eq!(align_addr_to_word(5), 0);
}

#[test]
fn patch_replaces_one_byte() {
    let word: u64 = 0x1122_3344_5566_7788;
    assert_eq!(patch_word(word, 0, 0xcc), (0x1122_3344_5566_77cc, 0x88));
    assert_eq!(patch_word(word, 3, 0xcc), (0x1122_3344_cc66_7788, 0x55));
    assert_eq!(patch_word(word, 7, 0xcc), (0xcc22_3344_5566_7788, 0x11));
}

#[test]
fn patch_then_restore_gives_back_the_word() {
    let word: u64 = 0xdead_beef_0102_0304;
    for offset in 0..8u64 {
        let (trapped, orig) = patch_word(word, offset, 0xcc);
        let (restored, seen) = patch_word(trapped, offset, orig);
        assert_eq!(seen, 0xcc);
        assert_eq!(restored, word);
    }
}
