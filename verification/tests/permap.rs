//! Schema-level behaviour: typed fields stored through the engine.

use nor_storage::{Crc32, Error, Mode, PerMap, TestMem};

fn erased_words(n: usize) -> Vec<u32> {
    vec![!0u32; n]
}

fn new_permap(n: usize) -> PerMap<TestMem, Crc32> {
    PerMap::new(TestMem { words: erased_words(n) })
}

#[test]
fn append_and_read_back() {
    // Empty region of 0x100 words; four versions of `name`; the latest
    // wins before and after a rescan, and the cursor sits at word 16.
    let mut map = new_permap(0x100);
    let mut crc = Crc32::new();
    map.init(&mut crc);

    map.set_name(7u32, &mut crc).unwrap();
    map.set_name(6u32, &mut crc).unwrap();
    map.set_name(3u32, &mut crc).unwrap();
    map.set_name(1u32, &mut crc).unwrap();
    assert_eq!(map.get_name().unwrap(), Some(1));

    map.init(&mut crc);
    assert_eq!(map.get_name().unwrap(), Some(1));
    assert_eq!(map.len(), 16 * 4);
}

#[test]
fn mixed_types() {
    let mut map = new_permap(0x100);
    let mut crc = Crc32::new();
    map.init(&mut crc);

    map.set_name(7u32, &mut crc).unwrap();
    map.set_name(6u32, &mut crc).unwrap();
    map.set_name(3u32, &mut crc).unwrap();
    map.set_name(1u32, &mut crc).unwrap();
    map.set_my_str("Hello", &mut crc).unwrap();
    map.set_calib(777u32, &mut crc).unwrap();
    map.set_cara(42u8, &mut crc).unwrap();
    map.set_cara(42u8, &mut crc).unwrap();
    map.set_cara(42u8, &mut crc).unwrap();
    map.set_flag(true, &mut crc).unwrap();
    map.set_flag(false, &mut crc).unwrap();
    map.set_my_str("Crabby crab", &mut crc).unwrap();
    map.set_mode(Mode::Lifting, &mut crc).unwrap();
    map.set_mode(Mode::InAir, &mut crc).unwrap();
    map.set_my_bytes(&[0u8, 1, 2], &mut crc).unwrap();
    map.set_my_bytes(&[2u8, 1, 0], &mut crc).unwrap();

    map.init(&mut crc);
    assert_eq!(map.get_name().unwrap(), Some(1));
    assert_eq!(map.get_calib().unwrap(), Some(777));
    assert_eq!(map.get_cara().unwrap(), Some(42));
    assert_eq!(map.get_flag().unwrap(), Some(false));
    assert_eq!(map.get_mode().unwrap(), Some(Mode::InAir));
    assert_eq!(
        map.get_my_str().unwrap().unwrap().as_slice(),
        &b"Crabby crab"[..]
    );
    assert_eq!(map.get_my_bytes().unwrap().unwrap().as_slice(), &[2u8, 1, 0][..]);
}

#[test]
fn crc_corruption_unmaps_field() {
    // A single flipped bit in the payload word makes the record fail
    // validation: after a rescan the field reads as unset.
    let mut map = new_permap(0x100);
    let mut crc = Crc32::new();
    map.init(&mut crc);
    map.set_name(42u32, &mut crc).unwrap();
    assert_eq!(map.get_name().unwrap(), Some(42));

    let mut mem = map.into_inner();
    mem.words[3] ^= 1;
    let mut map: PerMap<TestMem, Crc32> = PerMap::new(mem);
    let stats = map.init(&mut crc);
    assert_eq!(map.get_name().unwrap(), None);
    // The corrupt record's words count as waste.
    assert_eq!(stats.words_wasted, 4);
    assert_eq!(stats.unique_tags, 0);
}

#[test]
fn torn_write_recovery() {
    // Erasing the crc word simulates power loss right before the final
    // header write: the partial record must not be mapped, and the
    // cursor must land past its non-erased words.
    let mut map = new_permap(0x100);
    let mut crc = Crc32::new();
    map.init(&mut crc);
    map.set_name(1u32, &mut crc).unwrap();

    let mut mem = map.into_inner();
    mem.words[2] = !0u32;
    let mut map: PerMap<TestMem, Crc32> = PerMap::new(mem);
    let stats = map.init(&mut crc);
    assert_eq!(map.get_name().unwrap(), None);
    // Words 0, 1 and 3 are written, word 2 is erased again: three words
    // of waste, and the cursor lands at word 4.
    assert_eq!(stats.words_wasted, 3);
    assert_eq!(map.len(), 4 * 4);
}

#[test]
fn duplicate_tag_ordering() {
    let mut map = new_permap(0x100);
    let mut crc = Crc32::new();
    map.init(&mut crc);
    map.set_cara(1u8, &mut crc).unwrap();
    map.set_cara(2u8, &mut crc).unwrap();
    map.set_cara(3u8, &mut crc).unwrap();

    map.init(&mut crc);
    assert_eq!(map.get_cara().unwrap(), Some(3));
}

#[test]
fn typed_round_trips() {
    let mut map = new_permap(0x100);
    let mut crc = Crc32::new();
    map.init(&mut crc);

    map.set_name(0xDEAD_BEEF, &mut crc).unwrap();
    assert_eq!(map.get_name().unwrap(), Some(0xDEAD_BEEF));
    map.set_calib(0, &mut crc).unwrap();
    assert_eq!(map.get_calib().unwrap(), Some(0));
    map.set_cara(255u8, &mut crc).unwrap();
    assert_eq!(map.get_cara().unwrap(), Some(255));
    map.set_flag(true, &mut crc).unwrap();
    assert_eq!(map.get_flag().unwrap(), Some(true));
    map.set_mode(Mode::OnGround, &mut crc).unwrap();
    assert_eq!(map.get_mode().unwrap(), Some(Mode::OnGround));
    map.set_my_str("", &mut crc).unwrap();
    assert_eq!(map.get_my_str().unwrap().unwrap().len(), 0);
    map.set_my_bytes(&[], &mut crc).unwrap();
    assert_eq!(map.get_my_bytes().unwrap().unwrap().len(), 0);
}

#[test]
fn fields_are_independent() {
    let mut map = new_permap(0x100);
    let mut crc = Crc32::new();
    map.init(&mut crc);

    map.set_name(11u32, &mut crc).unwrap();
    map.set_calib(22u32, &mut crc).unwrap();
    map.set_cara(33u8, &mut crc).unwrap();
    // Writing one field changes no other.
    map.set_name(44u32, &mut crc).unwrap();
    assert_eq!(map.get_calib().unwrap(), Some(22));
    assert_eq!(map.get_cara().unwrap(), Some(33));
    assert_eq!(map.get_name().unwrap(), Some(44));
}

#[test]
fn unset_fields_read_as_none() {
    let mut map = new_permap(0x100);
    let mut crc = Crc32::new();
    let stats = map.init(&mut crc);
    assert_eq!(stats.words_wasted, 0);
    assert_eq!(stats.unique_tags, 0);
    assert_eq!(map.get_name().unwrap(), None);
    assert_eq!(map.get_calib().unwrap(), None);
    assert_eq!(map.get_cara().unwrap(), None);
    assert_eq!(map.get_flag().unwrap(), None);
    assert_eq!(map.get_mode().unwrap(), None);
    assert_eq!(map.get_my_str().unwrap(), None);
    assert_eq!(map.get_my_bytes().unwrap(), None);
}

#[test]
fn oom_keeps_previous_value() {
    // 16 words: room for two name records and change, not three strings.
    let mut map = new_permap(10);
    let mut crc = Crc32::new();
    map.init(&mut crc);
    map.set_name(1u32, &mut crc).unwrap();
    map.set_name(2u32, &mut crc).unwrap();
    // 2 words left: a third record (4 words) does not fit.
    match map.set_name(3u32, &mut crc) {
        Err(Error::OutOfMemory) => {}
        _ => panic!("expected OutOfMemory"),
    }
    assert_eq!(map.get_name().unwrap(), Some(2));
}

#[test]
fn recovery_after_power_cycle() {
    // Drop the store and rebuild it over the same region: every getter
    // agrees with what it returned before.
    let mut map = new_permap(0x40);
    let mut crc = Crc32::new();
    map.init(&mut crc);
    map.set_name(5u32, &mut crc).unwrap();
    map.set_flag(true, &mut crc).unwrap();
    map.set_my_bytes(&[9u8, 8, 7, 6, 5], &mut crc).unwrap();
    let name_before = map.get_name().unwrap();
    let flag_before = map.get_flag().unwrap();
    let bytes_before = map.get_my_bytes().unwrap();
    let len_before = map.len();

    let mem = map.into_inner();
    let mut map: PerMap<TestMem, Crc32> = PerMap::new(mem);
    map.init(&mut crc);
    assert_eq!(map.get_name().unwrap(), name_before);
    assert_eq!(map.get_flag().unwrap(), flag_before);
    assert_eq!(map.get_my_bytes().unwrap(), bytes_before);
    assert_eq!(map.len(), len_before);
}

#[test]
fn format_renders_fields() {
    let mut map = new_permap(0x100);
    let mut crc = Crc32::new();
    map.init(&mut crc);
    map.set_name(1u32, &mut crc).unwrap();
    map.set_calib(777u32, &mut crc).unwrap();
    map.set_cara(42u8, &mut crc).unwrap();
    map.set_flag(false, &mut crc).unwrap();
    map.set_mode(Mode::InAir, &mut crc).unwrap();
    map.set_my_str("Crab", &mut crc).unwrap();
    map.set_my_bytes(&[2u8, 1, 0], &mut crc).unwrap();

    let mut out = String::new();
    map.format(&mut out).unwrap();
    assert_eq!(
        out,
        "PerMap { name : Some(1), calib : Some(777), cara : Some(42), \
         flag : Some(false), mode : Some(InAir), my_str : Some([67, 114, 97, 98]), \
         my_bytes : Some([2, 1, 0]) }"
    );
}

#[test]
fn format_of_empty_store() {
    let mut map = new_permap(0x100);
    let mut crc = Crc32::new();
    map.init(&mut crc);
    let mut out = String::new();
    map.format(&mut out).unwrap();
    assert_eq!(
        out,
        "PerMap { name : None, calib : None, cara : None, flag : None, \
         mode : None, my_str : None, my_bytes : None }"
    );
}

#[test]
fn checked_getters_agree() {
    let mut map = new_permap(0x100);
    let mut crc = Crc32::new();
    map.init(&mut crc);
    map.set_name(31u32, &mut crc).unwrap();
    map.set_cara(7u8, &mut crc).unwrap();
    map.set_flag(true, &mut crc).unwrap();
    map.set_mode(Mode::Landing, &mut crc).unwrap();
    map.set_my_bytes(&[5u8, 6], &mut crc).unwrap();

    assert_eq!(map.get_name_checked(&mut crc).unwrap(), Some(31));
    assert_eq!(map.get_calib_checked(&mut crc).unwrap(), None);
    assert_eq!(map.get_cara_checked(&mut crc).unwrap(), Some(7));
    assert_eq!(map.get_flag_checked(&mut crc).unwrap(), Some(true));
    assert_eq!(map.get_mode_checked(&mut crc).unwrap(), Some(Mode::Landing));
    assert_eq!(map.get_my_str_checked(&mut crc).unwrap(), None);
    assert_eq!(
        map.get_my_bytes_checked(&mut crc).unwrap().unwrap().as_slice(),
        &[5u8, 6][..]
    );
}
