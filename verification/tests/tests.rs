use word_dictionary::BrokenReason;
use word_dictionary::Dictionary;
use word_dictionary::ReadError;
use word_dictionary::WriteError;

#[test]
fn correct_usage() {
    let dictionary_data = "Abez = 阿別茲 -->阿貝茲\n  Abhai = 阿拜\nability =技能\nAbmin = 阿布明\n\nAbraxas= 阿柏拉克薩斯\nAbsu = 阿布蘇";

    let mut dictionary = Dictionary::new();

    dictionary.load_from_str(dictionary_data).unwrap();

    assert_eq!(6, dictionary.count());

    assert_eq!(Some("Abez"), dictionary.get_left(0));
    assert_eq!(Some("阿貝茲"), dictionary.get_right(0));
    assert_eq!(Some(String::from("阿別茲 --> 阿貝茲")), dictionary.get_all_right_to_string(0));

    assert_eq!(Some(0), dictionary.find_left_strictly("Abez", 0));
    assert_eq!(Some(0), dictionary.find_left("A", 0));
    assert_eq!(Some(2), dictionary.find_left_strictly("aBility", 0));
    assert_eq!(None, dictionary.find_left_strictly("aBilit", 0));
    assert_eq!(Some(2), dictionary.find_left("aBilit", 0));

    assert_eq!(Some(0), dictionary.find_right_strictly("阿貝茲", 0));
    assert_eq!(Some(0), dictionary.find_right_strictly("阿別茲", 0));
    assert_eq!(None, dictionary.find_right_strictly("阿貝", 0));
    assert_eq!(Some(0), dictionary.find_right("阿貝", 0));
    assert_eq!(Some(4), dictionary.find_right_strictly("阿柏拉克薩斯", 0));
    assert_eq!(Some(4), dictionary.find_right("柏拉克", 0));

    assert_eq!(Some(1), dictionary.find_left("A", 1));
    assert_eq!(Some(1), dictionary.find_right("阿", 1));

    assert_eq!(true, dictionary.add_edit("Alric", "阿里克").unwrap());
    assert_eq!(7, dictionary.count());
    assert_eq!(Some("阿里克"), dictionary.get_right(6));

    assert_eq!(false, dictionary.add_edit("Abez", "阿別茲").unwrap());
    assert_eq!(7, dictionary.count());
    assert_eq!(Some("阿別茲"), dictionary.get_right(0));

    assert_eq!(true, dictionary.delete(4));

    let dictionary_data = "Abez = 阿別茲 --> 阿貝茲 --> 阿別茲\nAbhai = 阿拜\nability = 技能\nAbmin = 阿布明\nAbsu = 阿布蘇\nAlric = 阿里克";

    assert_eq!(dictionary_data, dictionary.save_to_string());
}

#[test]
fn incorrect_usage() {
    let mut dictionary = Dictionary::new();
    assert!(dictionary.load_from_str("Abez = 阿別茲 -->").is_err());

    let mut dictionary = Dictionary::new();
    assert!(dictionary.load_from_str("Abez = 阿別=茲").is_err());

    let mut dictionary = Dictionary::new();
    assert!(dictionary.load_from_str("Abe-->z = 阿別茲").is_err());

    let mut dictionary = Dictionary::new();
    dictionary.load_from_str("Abez = 阿別茲 --> 阿貝茲\nAbhai = 阿拜").unwrap();

    assert!(dictionary.add_edit("Abez", "阿貝茲").is_err());
    assert_eq!(false, dictionary.delete(2));
}

#[test]
fn load_three_entries() {
    let mut dictionary = Dictionary::new();
    dictionary.load_from_str("Abez = 阿別茲 -->阿貝茲\nAbhai = 阿拜\nability =技能").unwrap();

    assert_eq!(3, dictionary.count());
    assert_eq!(Some("阿貝茲"), dictionary.get_right(0));
    assert_eq!(Some(String::from("阿別茲 --> 阿貝茲")), dictionary.get_all_right_to_string(0));
    assert_eq!(Some(2), dictionary.find_left_strictly("aBility", 0));
}

#[test]
fn load_rejects_extra_equals_sign() {
    let mut dictionary = Dictionary::new();
    let err = dictionary.load_from_str("Abez = 阿別=茲").unwrap_err();
    match err {
        ReadError::Broken { line, left_string, reason } => {
            assert_eq!(1, line);
            assert_eq!("Abez", left_string);
            assert!(matches!(reason, BrokenReason::BadRightString { .. }));
        }
    }
}

#[test]
fn load_rejects_chain_separator_in_key() {
    let mut dictionary = Dictionary::new();
    let err = dictionary.load_from_str("Abe-->z = 阿別茲").unwrap_err();
    match err {
        ReadError::Broken { line, left_string, reason } => {
            assert_eq!(1, line);
            assert_eq!("Abe-->z ", left_string);
            assert!(matches!(reason, BrokenReason::BadLeftString));
        }
    }
}

#[test]
fn load_rejects_missing_value_section() {
    let mut dictionary = Dictionary::new();
    let err = dictionary.load_from_str("Abez").unwrap_err();
    match err {
        ReadError::Broken { line, left_string, reason } => {
            assert_eq!(1, line);
            assert_eq!("Abez", left_string);
            assert!(matches!(reason, BrokenReason::NoRightString));
        }
    }
}

#[test]
fn load_rejects_empty_chain_element() {
    let mut dictionary = Dictionary::new();
    let err = dictionary.load_from_str("Abez = 阿別茲 -->").unwrap_err();
    match err {
        ReadError::Broken { line, left_string, reason } => {
            assert_eq!(1, line);
            assert_eq!("Abez", left_string);
            assert!(matches!(reason, BrokenReason::BadRightString { .. }));
        }
    }
}

#[test]
fn load_rejects_duplicate_key_with_line_number() {
    let mut dictionary = Dictionary::new();
    // blank lines do not advance the line counter, which counts entry lines
    let err = dictionary.load_from_str("alpha = 1\n\nbeta = 2\nALPHA = 3").unwrap_err();
    match err {
        ReadError::Broken { line, left_string, reason } => {
            assert_eq!(3, line);
            assert_eq!("ALPHA", left_string);
            match reason {
                BrokenReason::Duplicated { another_left_string } => {
                    assert_eq!("alpha", another_left_string);
                }
                _ => panic!("expected a duplicate-key error"),
            }
        }
    }
}

#[test]
fn load_keeps_entries_before_the_failing_line() {
    let mut dictionary = Dictionary::new();
    assert!(dictionary.load_from_str("alpha = 1\nbeta = 2\ngamma").is_err());
    assert_eq!(2, dictionary.count());
    assert_eq!(Some("alpha"), dictionary.get_left(0));
    assert_eq!(Some("beta"), dictionary.get_left(1));
}

#[test]
fn missing_file_contents_not_needed_for_empty_store() {
    let dictionary = Dictionary::new();
    assert_eq!(0, dictionary.count());
    assert_eq!(None, dictionary.get_left(0));
    assert_eq!(None, dictionary.get_right(0));
    assert_eq!(None, dictionary.get_all_right(0));
    assert_eq!(None, dictionary.get_all_right_to_string(0));
}

#[test]
fn search_totality() {
    // over an empty table every search returns not-found
    let empty = Dictionary::new();
    assert_eq!(None, empty.find_left_strictly("anything", 0));
    assert_eq!(None, empty.find_left("anything", 5));
    assert_eq!(None, empty.find_right_strictly("anything", 0));
    assert_eq!(None, empty.find_right("anything", 7));

    // a query equal to some key under case folding is always found
    let mut dictionary = Dictionary::new();
    dictionary.load_from_str("Abez = 阿別茲\nAbhai = 阿拜").unwrap();
    assert!(dictionary.find_left_strictly("ABEZ", 0).is_some());
    assert!(dictionary.find_left_strictly("abhai", 1).is_some());
}

#[test]
fn wrap_around_start_index() {
    let mut dictionary = Dictionary::new();
    dictionary.load_from_str("Abez = 阿別茲\nAbhai = 阿拜\nability =技能").unwrap();
    let size = dictionary.count();
    assert_eq!(dictionary.find_left("ab", 0), dictionary.find_left("ab", size));
    assert_eq!(dictionary.find_left("ability", 0), dictionary.find_left("ability", size));
    // resuming after a match walks the circle; only start % size matters
    assert_eq!(Some(1), dictionary.find_left("ab", 1));
    assert_eq!(Some(2), dictionary.find_left("ab", size + 2));
}

#[test]
fn duplicate_add_rejected_and_append_keeps_history() {
    let mut dictionary = Dictionary::new();
    dictionary.load_from_str("Abez = 阿別茲").unwrap();

    // identical current value: rejected, nothing changes
    assert!(matches!(dictionary.add_edit("abez", "阿別茲"), Err(WriteError::Duplicated)));
    assert_eq!(1, dictionary.count());
    assert_eq!(Some(String::from("阿別茲")), dictionary.get_all_right_to_string(0));

    // a new value on an existing key appends without removing prior values
    assert_eq!(false, dictionary.add_edit("ABEZ", "阿貝茲").unwrap());
    assert_eq!(1, dictionary.count());
    assert_eq!(Some("Abez"), dictionary.get_left(0));
    assert_eq!(Some("阿貝茲"), dictionary.get_right(0));
    assert_eq!(Some(String::from("阿別茲 --> 阿貝茲")), dictionary.get_all_right_to_string(0));
}

#[test]
fn add_edit_validation_errors() {
    let mut dictionary = Dictionary::new();
    assert!(matches!(dictionary.add_edit("a-->b", "value"), Err(WriteError::BadLeftString)));
    assert!(matches!(dictionary.add_edit("a=b", "value"), Err(WriteError::BadLeftString)));
    assert!(matches!(dictionary.add_edit("key", "a-->b"), Err(WriteError::BadRightString)));
    assert!(matches!(dictionary.add_edit("key", "a=b"), Err(WriteError::BadRightString)));
    assert!(matches!(dictionary.add_edit("key", "   "), Err(WriteError::BadRightString)));
    assert!(matches!(dictionary.add_edit(" same ", "same"), Err(WriteError::Same)));
    assert_eq!(0, dictionary.count());
}

#[test]
fn add_edit_creates_seventh_entry() {
    let mut dictionary = Dictionary::new();
    dictionary
        .load_from_str("Abez = 阿別茲\nAbhai = 阿拜\nability =技能\nAbmin = 阿布明\nAbraxas= 阿柏拉克薩斯\nAbsu = 阿布蘇")
        .unwrap();
    assert_eq!(6, dictionary.count());
    assert_eq!(true, dictionary.add_edit("Alric", "阿里克").unwrap());
    assert_eq!(7, dictionary.count());
    let at = dictionary.find_left_strictly("Alric", 0).unwrap();
    assert_eq!(Some("阿里克"), dictionary.get_right(at));
}

#[test]
fn delete_shifts_later_indices_down() {
    let mut dictionary = Dictionary::new();
    dictionary
        .load_from_str("a = 1\nb = 2\nc = 3\nd = 4\ne = 5\nf = 6")
        .unwrap();
    assert_eq!(true, dictionary.delete(4));
    assert_eq!(5, dictionary.count());
    assert_eq!(Some("d"), dictionary.get_left(3));
    assert_eq!(Some("f"), dictionary.get_left(4));

    // out-of-range delete is a harmless no-op
    assert_eq!(false, dictionary.delete(100));
    assert_eq!(5, dictionary.count());
    assert_eq!(Some("f"), dictionary.get_left(4));
}

#[test]
fn save_sorts_case_insensitively() {
    let mut dictionary = Dictionary::new();
    dictionary.load_from_str("Absu = 3\nability = 2\nAbez = 1").unwrap();
    // a plain byte comparison would order the lower-case key last
    assert_eq!("Abez = 1\nability = 2\nAbsu = 3", dictionary.save_to_string());
    assert_eq!(Some("Abez"), dictionary.get_left(0));
    assert_eq!(Some("ability"), dictionary.get_left(1));
    assert_eq!(Some("Absu"), dictionary.get_left(2));
}

#[test]
fn save_twice_is_byte_identical() {
    let mut dictionary = Dictionary::new();
    dictionary.load_from_str("Beta = 2\nalpha = 1\nGamma = 3").unwrap();
    let first = dictionary.save_to_string();
    let second = dictionary.save_to_string();
    assert_eq!(first, second);
}

#[test]
fn save_empty_table_is_empty_text() {
    let mut dictionary = Dictionary::new();
    assert_eq!("", dictionary.save_to_string());
}

#[test]
fn save_then_load_round_trips() {
    let mut dictionary = Dictionary::new();
    dictionary.add_edit("Beta", "貝塔").unwrap();
    dictionary.add_edit("alpha", "阿爾法").unwrap();
    dictionary.add_edit("alpha", "阿法").unwrap();
    dictionary.add_edit("Gamma", "伽馬").unwrap();
    let text = dictionary.save_to_string();

    let mut reloaded = Dictionary::new();
    reloaded.load_from_str(&text).unwrap();

    assert_eq!(dictionary.count(), reloaded.count());
    for i in 0..dictionary.count() {
        assert_eq!(dictionary.get_left(i), reloaded.get_left(i));
        assert_eq!(dictionary.get_all_right_to_string(i), reloaded.get_all_right_to_string(i));
    }
    assert_eq!(text, reloaded.save_to_string());
}

#[test]
fn empty_key_is_allowed_and_round_trips() {
    let mut dictionary = Dictionary::new();
    dictionary.load_from_str(" = 孤值").unwrap();
    assert_eq!(1, dictionary.count());
    assert_eq!(Some(""), dictionary.get_left(0));
    assert_eq!(Some("孤值"), dictionary.get_right(0));
    let text = dictionary.save_to_string();
    assert_eq!(" = 孤值", text);

    let mut reloaded = Dictionary::new();
    reloaded.load_from_str(&text).unwrap();
    assert_eq!(1, reloaded.count());
    assert_eq!(Some(""), reloaded.get_left(0));
    assert_eq!(Some("孤值"), reloaded.get_right(0));
}

#[test]
fn trailing_newline_and_crlf_are_tolerated() {
    let mut dictionary = Dictionary::new();
    dictionary.load_from_str("a = 1\n").unwrap();
    assert_eq!(1, dictionary.count());

    let mut dictionary = Dictionary::new();
    dictionary.load_from_str("a = 1\r\nb = 2").unwrap();
    assert_eq!(2, dictionary.count());
    assert_eq!(Some("a"), dictionary.get_left(0));
    assert_eq!(Some("1"), dictionary.get_right(0));
}

#[test]
fn empty_query_matches_fuzzily_but_not_strictly() {
    let mut dictionary = Dictionary::new();
    dictionary.load_from_str("a = 1\nb = 2").unwrap();
    // the empty string is a substring of every key
    assert_eq!(Some(0), dictionary.find_left("", 0));
    assert_eq!(Some(1), dictionary.find_left("", 1));
    // but equals no non-empty key
    assert_eq!(None, dictionary.find_left_strictly("", 0));
}

#[test]
fn get_all_right_returns_the_chain() {
    let mut dictionary = Dictionary::new();
    dictionary.load_from_str("Abez = 阿別茲 --> 阿貝茲").unwrap();
    let chain = dictionary.get_all_right(0).unwrap();
    assert_eq!(2, chain.len());
    assert_eq!("阿別茲", chain[0]);
    assert_eq!("阿貝茲", chain[1]);
    assert_eq!(None, dictionary.get_all_right(1));
}
