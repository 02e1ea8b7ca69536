use runtime_storage::check_block::{
    parse_number, BlockId, CheckBlockCmd, Error, ImportParams, SharedParams,
};

fn command(input: &str) -> CheckBlockCmd {
    CheckBlockCmd {
        input: input.to_string(),
        default_heap_pages: None,
        shared_params: SharedParams { chain: None, dev: false, base_path: None, log: None },
        import_params: ImportParams { pruning: None, state_cache_size: 0 },
    }
}

#[test]
fn hash_text_drops_the_hex_prefix() {
    assert_eq!(command("0xabcd").hash_text(), "abcd");
    assert_eq!(command("abcd").hash_text(), "abcd");
    assert_eq!(command("0x").hash_text(), "");
    assert_eq!(command("").hash_text(), "");
    assert_eq!(command("0").hash_text(), "0");
    assert_eq!(command("0X12").hash_text(), "0X12");
    assert_eq!(command("x0x1").hash_text(), "x0x1");
    assert_eq!(command("0x0x1").hash_text(), "0x1");
    assert_eq!(command("0xé1").hash_text(), "é1");
}

#[test]
fn a_hash_that_was_read_names_the_block() {
    assert_eq!(command("0xabcd").block_id(Some([0xabu8, 0xcd])), Ok(BlockId::Hash([0xab, 0xcd])));
    assert_eq!(command("12").block_id(Some(7u64)), Ok(BlockId::Hash(7)));
}

#[test]
fn a_number_names_the_block() {
    assert_eq!(command("42").block_id(None::<u64>), Ok(BlockId::Number(42)));
    assert_eq!(command("0").block_id(None::<u64>), Ok(BlockId::Number(0)));
    assert_eq!(command("+7").block_id(None::<u64>), Ok(BlockId::Number(7)));
    assert_eq!(command("007").block_id(None::<u64>), Ok(BlockId::Number(7)));
    assert_eq!(command("4294967295").block_id(None::<u64>), Ok(BlockId::Number(u32::MAX)));
}

#[test]
fn other_input_is_rejected() {
    let rejected = Err(Error::Input("Invalid hash or number specified".to_string()));
    for input in ["", "abc", "0x10", "-1", "4294967296", "99999999999999999999999", "1 ", " 1", "1_0", "+", "++1", "1.0", "١"] {
        assert_eq!(command(input).block_id(None::<u64>), rejected);
    }
}

#[test]
fn parse_number_reads_as_the_standard_library_does() {
    let texts = [
        "", "0", "1", "10", "+1", "+0", "-0", "-1", "+", "-", "++1", "+-1", "00", "0001",
        "4294967295", "4294967296", "4294967300", "42949672950", "04294967295",
        "18446744073709551616", "340282366920938463463374607431768211456", "1a", "a1", " 1",
        "1 ", "1_000", "0x1", "1e3", "٣", "1٣", "+4294967295", "+4294967296", "12345678",
    ];
    for text in texts {
        assert_eq!(parse_number(text), text.parse::<u32>().ok(), "{}", text);
    }
}
