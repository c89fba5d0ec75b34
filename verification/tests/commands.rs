use memory_manager::command::parse_number;
use memory_manager::command::split_words;
use memory_manager::Command;
use memory_manager::MemoryBlock;
use memory_manager::MemoryManager;
use memory_manager::Reply;
use memory_manager::Verb;

fn words_of(line: &str) -> Vec<Vec<u8>> {
    split_words(line.as_bytes())
}

fn expect(words: &[&str]) -> Vec<Vec<u8>> {
    words.iter().map(|w| w.as_bytes().to_vec()).collect()
}

#[test]
fn split_words_on_blanks() {
    assert_eq!(words_of("INSERT 4 data"), expect(&["INSERT", "4", "data"]));
    assert_eq!(words_of("  DUMP  "), expect(&["DUMP"]));
    assert_eq!(words_of("a\tb\nc\rd\x0be\x0cf"), expect(&["a", "b", "c", "d", "e", "f"]));
    assert_eq!(words_of(""), expect(&[]));
    assert_eq!(words_of(" \t \n"), expect(&[]));
    assert_eq!(words_of("x"), expect(&["x"]));
}

#[test]
fn split_words_agrees_with_std_on_unicode_white_space() {
    let lines: [&str; 8] = [
        "INSERT\u{3000}4\u{a0}data",
        "a\u{85}b\u{1680}c\u{2000}d\u{200a}e\u{2028}f\u{2029}g\u{202f}h\u{205f}i",
        "\u{2003}lead and trail\u{2009}",
        "caf\u{e9} na\u{ef}ve \u{4e2d}\u{6587}",
        "zero\u{200b}width is no space",
        "\u{c2}\u{e2}\u{e3} \u{e1}",
        "x\u{2001}\u{2002}\u{2004}\u{2005}\u{2006}\u{2007}\u{2008}y",
        "\u{180e}mongolian\u{feff}bom",
    ];
    for line in lines.iter() {
        let std_words: Vec<Vec<u8>> = line.split_whitespace().map(|w| w.as_bytes().to_vec()).collect();
        assert_eq!(split_words(line.as_bytes()), std_words);
    }
}

#[test]
fn split_words_on_truncated_white_space_bytes() {
    assert_eq!(split_words(&[0xe2, 0x80]), vec![vec![0xe2u8, 0x80]]);
    assert_eq!(split_words(&[0x41, 0xc2]), vec![vec![0x41u8, 0xc2]]);
    assert_eq!(split_words(&[0x41, 0xc2, 0xa0, 0x42]), vec![vec![0x41u8], vec![0x42u8]]);
}

#[test]
fn parse_number_reads_decimal() {
    assert_eq!(parse_number(b"0"), Some(0));
    assert_eq!(parse_number(b"7"), Some(7));
    assert_eq!(parse_number(b"007"), Some(7));
    assert_eq!(parse_number(b"65535"), Some(65535));
    assert_eq!(parse_number(b"+5"), Some(5));
    assert_eq!(parse_number(b"1234567890"), Some(1234567890));
}

#[test]
fn parse_number_refuses_what_is_no_number() {
    assert_eq!(parse_number(b""), None);
    assert_eq!(parse_number(b"+"), None);
    assert_eq!(parse_number(b"-"), None);
    assert_eq!(parse_number(b"-5"), None);
    assert_eq!(parse_number(b"++5"), None);
    assert_eq!(parse_number(b"5+"), None);
    assert_eq!(parse_number(b"12a"), None);
    assert_eq!(parse_number(b"a12"), None);
    assert_eq!(parse_number(b"1 2"), None);
    assert_eq!(parse_number(b"0x10"), None);
    assert_eq!(parse_number(b"1.5"), None);
}

#[test]
fn parse_number_at_the_machine_limit() {
    let top: String = usize::MAX.to_string();
    assert_eq!(parse_number(top.as_bytes()), Some(usize::MAX));
    let padded: String = format!("+000{}", usize::MAX);
    assert_eq!(parse_number(padded.as_bytes()), Some(usize::MAX));
    let below: String = (usize::MAX - 1).to_string();
    assert_eq!(parse_number(below.as_bytes()), Some(usize::MAX - 1));
    let mut over: Vec<u8> = top.clone().into_bytes();
    let last: usize = over.len() - 1;
    over[last] += 1;
    assert_eq!(parse_number(&over), None);
    let longer: String = format!("{}0", usize::MAX);
    assert_eq!(parse_number(longer.as_bytes()), None);
    assert_eq!(parse_number(b"99999999999999999999999999999999999999999999"), None);
    assert_eq!(parse_number(b"99999999999999999999999999999999999999999999x"), None);
}

#[test]
fn parse_number_agrees_with_std() {
    let words: [&str; 12] =
        ["0", "42", "+42", "-42", "", "+", "00", "4 2", "18446744073709551615",
         "18446744073709551616", "4294967296", "١٢٣"];
    for w in words.iter() {
        assert_eq!(parse_number(w.as_bytes()), w.parse::<usize>().ok());
    }
}

#[test]
fn verb_from_word_is_exact() {
    assert_eq!(Verb::from_word(b"INSERT"), Some(Verb::Insert));
    assert_eq!(Verb::from_word(b"DELETE"), Some(Verb::Delete));
    assert_eq!(Verb::from_word(b"FIND"), Some(Verb::Find));
    assert_eq!(Verb::from_word(b"READ"), Some(Verb::Read));
    assert_eq!(Verb::from_word(b"UPDATE"), Some(Verb::Update));
    assert_eq!(Verb::from_word(b"DUMP"), Some(Verb::Dump));
    assert_eq!(Verb::from_word(b"insert"), None);
    assert_eq!(Verb::from_word(b"INSERTS"), None);
    assert_eq!(Verb::from_word(b"INSER"), None);
    assert_eq!(Verb::from_word(b"DUMB"), None);
    assert_eq!(Verb::from_word(b""), None);
}

#[test]
fn parse_reads_each_command() {
    assert_eq!(Command::parse(b"INSERT 4 data"), Command::Insert { size: 4, data: b"data".to_vec() });
    assert_eq!(Command::parse(b"DELETE 3"), Command::Delete { id: 3 });
    assert_eq!(Command::parse(b"FIND 0"), Command::Find { id: 0 });
    assert_eq!(Command::parse(b"READ 12"), Command::Read { id: 12 });
    assert_eq!(Command::parse(b"UPDATE 1 xy"), Command::Update { id: 1, data: b"xy".to_vec() });
    assert_eq!(Command::parse(b"DUMP"), Command::Dump);
    assert_eq!(Command::parse(b""), Command::Blank);
    assert_eq!(Command::parse(b"   \t"), Command::Blank);
}

#[test]
fn parse_passes_over_surplus_words() {
    assert_eq!(
        Command::parse(b"  INSERT  4   data  more words"),
        Command::Insert { size: 4, data: b"data".to_vec() }
    );
    assert_eq!(Command::parse(b"DELETE 3 4"), Command::Delete { id: 3 });
    assert_eq!(Command::parse(b"FIND 3 4"), Command::Find { id: 3 });
    assert_eq!(Command::parse(b"UPDATE 1 xy z"), Command::Update { id: 1, data: b"xy".to_vec() });
    assert_eq!(Command::parse(b"DUMP now"), Command::Dump);
}

#[test]
fn parse_reports_malformed_lines() {
    assert_eq!(Command::parse(b"INSERT 4"), Command::Incomplete { verb: Verb::Insert });
    assert_eq!(Command::parse(b"INSERT"), Command::Incomplete { verb: Verb::Insert });
    assert_eq!(Command::parse(b"DELETE"), Command::Incomplete { verb: Verb::Delete });
    assert_eq!(Command::parse(b"FIND"), Command::Incomplete { verb: Verb::Find });
    assert_eq!(Command::parse(b"READ"), Command::Incomplete { verb: Verb::Read });
    assert_eq!(Command::parse(b"READ 1 2"), Command::Incomplete { verb: Verb::Read });
    assert_eq!(Command::parse(b"UPDATE 1"), Command::Incomplete { verb: Verb::Update });
    assert_eq!(Command::parse(b"INSERT four data"), Command::NotNumeric { verb: Verb::Insert });
    assert_eq!(Command::parse(b"DELETE -1"), Command::NotNumeric { verb: Verb::Delete });
    assert_eq!(Command::parse(b"FIND x"), Command::NotNumeric { verb: Verb::Find });
    assert_eq!(Command::parse(b"READ 1x"), Command::NotNumeric { verb: Verb::Read });
    assert_eq!(Command::parse(b"UPDATE x y"), Command::NotNumeric { verb: Verb::Update });
    assert_eq!(Command::parse(b"insert 4 data"), Command::Unknown { word: b"insert".to_vec() });
    assert_eq!(Command::parse(b"4 INSERT data"), Command::Unknown { word: b"4".to_vec() });
}

#[test]
fn execute_answers_each_command() {
    let mut m = MemoryManager::new();
    assert_eq!(m.execute(&Command::parse(b"INSERT 5 hello")), Reply::Allocated { id: 0 });
    assert_eq!(m.execute(&Command::parse(b"INSERT 3 abcdef")), Reply::Allocated { id: 1 });
    assert_eq!(m.execute(&Command::parse(b"FIND 0")), Reply::Found { data: b"hello".to_vec() });
    assert_eq!(m.execute(&Command::parse(b"READ 1")), Reply::Found { data: b"abc".to_vec() });
    assert_eq!(m.execute(&Command::parse(b"UPDATE 0 HE")), Reply::Updated { id: 0 });
    assert_eq!(m.execute(&Command::parse(b"READ 0")), Reply::Found { data: b"HEllo".to_vec() });
    assert_eq!(m.execute(&Command::parse(b"UPDATE 1 toolong")), Reply::TooLarge { id: 1 });
    assert_eq!(m.execute(&Command::parse(b"UPDATE 9 x")), Reply::NotFound { id: 9 });
    assert_eq!(m.execute(&Command::parse(b"DELETE 0")), Reply::Deleted { id: 0 });
    assert_eq!(m.execute(&Command::parse(b"DELETE 0")), Reply::NotFound { id: 0 });
    assert_eq!(m.execute(&Command::parse(b"FIND 0")), Reply::NotFound { id: 0 });
    assert_eq!(m.execute(&Command::parse(b"READ 0")), Reply::NotFound { id: 0 });
    assert_eq!(
        m.execute(&Command::parse(b"DUMP")),
        Reply::Listing {
            blocks: vec![
                MemoryBlock { start: 0, size: 5, allocated: false, id: None },
                MemoryBlock { start: 8, size: 65527, allocated: false, id: None },
                MemoryBlock { start: 5, size: 3, allocated: true, id: Some(1) },
            ],
        }
    );
    assert_eq!(m.execute(&Command::parse(b"")), Reply::Nothing);
    assert_eq!(m.execute(&Command::parse(b"NOPE")), Reply::Malformed);
    assert_eq!(m.execute(&Command::parse(b"INSERT 1")), Reply::Malformed);
    assert_eq!(m.execute(&Command::parse(b"DELETE one")), Reply::Malformed);
}

#[test]
fn execute_rejects_allocations_that_break_the_input_conditions() {
    let mut m = MemoryManager::new();
    let before = m.dump();
    assert_eq!(m.execute(&Command::parse(b"INSERT 0 data")), Reply::Rejected);
    assert_eq!(m.execute(&Command::parse(b"INSERT 5 data")), Reply::Rejected);
    assert_eq!(m.execute(&Command::Insert { size: 70000, data: vec![0u8; 10] }), Reply::Rejected);
    assert_eq!(m.dump(), before);
    assert_eq!(m.next_id(), 0);
    assert_eq!(m.execute(&Command::parse(b"INSERT 4 data")), Reply::Allocated { id: 0 });
}

#[test]
fn execute_reports_out_of_memory() {
    let mut m = MemoryManager::new();
    let big = Command::Insert { size: 40000, data: vec![1u8; 40000] };
    assert_eq!(m.execute(&big), Reply::Allocated { id: 0 });
    let before = m.dump();
    assert_eq!(m.execute(&big), Reply::OutOfMemory);
    assert_eq!(m.dump(), before);
    assert_eq!(m.execute(&Command::parse(b"INSERT 2 ok")), Reply::Allocated { id: 1 });
}
