use comtrade::info::deserialize_comtrade_info;
use comtrade::ComtradeError;

#[test]
fn section_key_and_entry_values() {
    let info = deserialize_comtrade_info("[Public General Info]\r\nk=a,b,c\r\n").unwrap();
    assert_eq!(info.len(), 1);
    assert_eq!(info[0].name, "General_Info");
    assert_eq!(info[0].entries.len(), 1);
    assert_eq!(info[0].entries[0].key, "k");
    assert_eq!(info[0].entries[0].values, vec!["a", "b", "c"]);
}

#[test]
fn two_sections_in_file_order() {
    let text = "[Public General Info]\r\nfirst=1\r\nsecond=2,3\r\n\r\n[Private Extra Data]\r\nthird=x\r\n";
    let info = deserialize_comtrade_info(text).unwrap();
    assert_eq!(info.len(), 2);
    assert_eq!(info[0].name, "General_Info");
    assert_eq!(info[0].entries.len(), 2);
    assert_eq!(info[0].entries[0].key, "first");
    assert_eq!(info[0].entries[1].values, vec!["2", "3"]);
    assert_eq!(info[1].name, "Extra_Data");
    assert_eq!(info[1].entries[0].key, "third");
}

#[test]
fn spaces_in_section_names_become_underscores() {
    let info = deserialize_comtrade_info("[Public A B C]\r\n").unwrap();
    assert_eq!(info[0].name, "A_B_C");
    assert_eq!(info[0].entries.len(), 0);
}

#[test]
fn blank_lines_are_discarded() {
    let info = deserialize_comtrade_info("\r\n[Public General Info]\r\n\r\nk=v\r\n\r\n").unwrap();
    assert_eq!(info.len(), 1);
    assert_eq!(info[0].entries.len(), 1);
}

#[test]
fn entry_value_order_is_kept() {
    let info = deserialize_comtrade_info("[Public S N]\r\nk=z,y,x,w\r\n").unwrap();
    assert_eq!(info[0].entries[0].values, vec!["z", "y", "x", "w"]);
}

#[test]
fn empty_input_is_empty_record() {
    assert_eq!(deserialize_comtrade_info("").unwrap().len(), 0);
}

#[test]
fn info_error_variants() {
    assert_eq!(
        deserialize_comtrade_info("[Public General Info\r\n"),
        Err(ComtradeError::InfoSectionMissingBracket)
    );
    assert_eq!(
        deserialize_comtrade_info("[General]\r\n"),
        Err(ComtradeError::InfoSectionMissingSpace)
    );
    assert_eq!(
        deserialize_comtrade_info("[Public General Info]\r\nno equals here\r\n"),
        Err(ComtradeError::InfoEntryMissingEquals)
    );
    // a first line that is no header at all reads as a bad header
    assert_eq!(
        deserialize_comtrade_info("k=v\r\n"),
        Err(ComtradeError::InfoSectionMissingBracket)
    );
}

#[test]
fn parse_same_input_twice_gives_identical_output() {
    let text = "[Public General Info]\r\nk=a,b\r\n";
    let a = deserialize_comtrade_info(text).unwrap();
    let b = deserialize_comtrade_info(text).unwrap();
    assert_eq!(a.len(), b.len());
    assert_eq!(a[0].name, b[0].name);
    assert_eq!(a[0].entries[0].values, b[0].entries[0].values);
}

#[test]
fn header_needs_its_opening_bracket() {
    // a trailing bracket alone does not make a header
    assert_eq!(
        deserialize_comtrade_info("x y]\r\n"),
        Err(ComtradeError::InfoSectionMissingBracket)
    );
}
