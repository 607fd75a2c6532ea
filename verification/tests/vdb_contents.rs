use pkgatom::vdb::parsers::contents;
use pkgatom::vdb::{Content, Dir, Obj, Sym};

#[test]
fn test_contents() {
    let input = "obj /usr/share/alsa/ucm2/NXP/iMX8/Librem_5_Devkit/Librem 5 Devkit.conf 6c0d51586d94c272b160eb7ba6c61331 1739589188\ndir /a/path to something\nsym /a/path to something -> ../another path 102021\n";

    let expected = [
        Content::Obj(Obj {
            path: String::from(
                "/usr/share/alsa/ucm2/NXP/iMX8/Librem_5_Devkit/Librem 5 Devkit.conf",
            ),
            md5: String::from("6c0d51586d94c272b160eb7ba6c61331"),
            size: 1739589188,
        }),
        Content::Dir(Dir {
            path: String::from("/a/path to something"),
        }),
        Content::Sym(Sym {
            src: String::from("/a/path to something"),
            dest: String::from("../another path"),
            size: 102021,
        }),
    ];

    let (contents, _) = contents(input).unwrap();

    for (received, expected) in contents.iter().zip(expected) {
        assert_eq!(*received, expected);
    }
}

#[test]
fn test_contents_counts_records() {
    let input = "dir /etc\ndir /etc/conf.d\n";
    let (records, rest) = contents(input).unwrap();
    assert_eq!(records.len(), 2);
    assert_eq!(rest, input.chars().count());
}

#[test]
fn test_contents_keeps_leading_zero_size() {
    let input = "sym /a -> /b 007\n";
    let (records, _) = contents(input).unwrap();
    assert!(matches!(&records[0], Content::Sym(s) if s.size == 7));
}

#[test]
fn test_contents_stops_at_malformed_tail() {
    // The md5 column is one digit short, so no record parses.
    let input = "obj /a/file 6c0d51586d94c272b160eb7ba6c6133 17395\n";
    let (records, rest) = contents(input).unwrap();
    assert!(records.is_empty());
    assert_eq!(rest, 0);
}

#[test]
fn test_contents_rejects_oversized_size_column() {
    // The size column does not fit a 64-bit integer, so the record is left
    // unconsumed rather than mis-read.
    let input = "dir /ok\nobj /a b6d7184ddfa56ca78ced2d342113d177 99999999999999999999\n";
    let (records, rest) = contents(input).unwrap();
    assert_eq!(records.len(), 1);
    assert_eq!(rest, 8);
}
