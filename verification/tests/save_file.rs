use schematic2bls::blockland::save_file::save_header;

#[test]
fn header_starts_with_the_warning_line() {
    let header = save_header();
    assert!(header.starts_with(
        "This is a Blockland save file.  You probably shouldn't modify it cause you'll screw it up.\r\n"
    ));
}

#[test]
fn header_has_the_marker_and_palette_lines() {
    let header = save_header();
    let lines: Vec<&str> = header.split("\r\n").collect();
    // warning, "1", blank, 64 palette lines, and the trailing empty
    // piece after the final line ending.
    assert_eq!(lines.len(), 68);
    assert_eq!(lines[1], "1");
    assert_eq!(lines[2], "");
    assert_eq!(lines[3], "0.898039 0.000000 0.000000 1.000000");
    assert_eq!(lines[66], "1.000000 0.000000 1.000000 0.000000");
    assert_eq!(lines[67], "");
}
