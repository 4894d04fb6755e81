use fuc_engine::aggregate::{combine, FirstError};
use fuc_engine::entry::{classify, enters, Verdict};
use fuc_engine::mode::{broken_list_error, find_bad_bit, find_broken_list, octal_from_str};
use fuc_engine::path::{strip_all, strip_trailing_separator};
use fuc_engine::{
    ChmodMode, Context, EntryKind, Error, IoFailure, IoKind, ModeParseError, Operation,
};

const FILE: u32 = 0o100000;
const DIRECTORY: u32 = 0o040000;

fn missing() -> IoFailure {
    IoFailure { kind: IoKind::NotFound, os_code: Some(2) }
}

fn denied() -> IoFailure {
    IoFailure { kind: IoKind::Other, os_code: Some(13) }
}

#[test]
fn octal_strings_are_absolute() {
    assert!(matches!(ChmodMode::new("755"), ChmodMode::Octal(0o755)));
    assert!(matches!(ChmodMode::new("0"), ChmodMode::Octal(0)));
    assert!(matches!(ChmodMode::new("0644"), ChmodMode::Octal(0o644)));
    assert!(matches!(ChmodMode::new("7777"), ChmodMode::Octal(0o7777)));
    assert!(matches!(ChmodMode::new("000000000000000000000000017"), ChmodMode::Octal(0o17)));
}

#[test]
fn a_leading_plus_is_part_of_the_number() {
    assert_eq!(octal_from_str("+755"), Some(0o755));
    assert_eq!(octal_from_str("+"), None);
    assert_eq!(octal_from_str("++7"), None);
    assert_eq!(octal_from_str("-7"), None);
    assert_eq!(octal_from_str("7+"), None);
}

#[test]
fn octal_parsing_stops_at_32_bits() {
    assert_eq!(octal_from_str("37777777777"), Some(u32::MAX));
    assert_eq!(octal_from_str("40000000000"), None);
    assert_eq!(octal_from_str("777777777777"), None);
    assert!(matches!(ChmodMode::new("40000000000"), ChmodMode::Symbolic("40000000000")));
}

#[test]
fn other_strings_are_symbolic() {
    assert!(matches!(ChmodMode::new("u+x"), ChmodMode::Symbolic("u+x")));
    assert!(matches!(ChmodMode::new(""), ChmodMode::Symbolic("")));
    assert!(matches!(ChmodMode::new("8"), ChmodMode::Symbolic("8")));
    assert!(matches!(ChmodMode::new("75 5"), ChmodMode::Symbolic("75 5")));
    assert!(matches!(ChmodMode::new(" 755"), ChmodMode::Symbolic(" 755")));
    assert!(matches!(ChmodMode::new("7_5"), ChmodMode::Symbolic("7_5")));
    assert!(matches!(ChmodMode::new("\u{663}"), ChmodMode::Symbolic(_)));
}

#[test]
fn only_symbolic_modes_need_the_current_bits() {
    assert!(!ChmodMode::new("644").needs_current());
    assert!(ChmodMode::new("g-w").needs_current());
}

#[test]
fn absolute_bits_replace_what_was_there() {
    let mode = ChmodMode::Octal(0o755);
    assert_eq!(mode.resolve(FILE | 0o644, 0o022), Ok(0o755));
    assert_eq!(mode.resolve(DIRECTORY | 0o7777, 0), Ok(0o755));
    assert_eq!(mode.resolve(0, 0o777), Ok(0o755));
}

#[test]
fn absolute_bits_are_cut_to_the_managed_range() {
    assert_eq!(ChmodMode::Octal(0o100644).resolve(FILE | 0o777, 0), Ok(0o644));
    assert_eq!(ChmodMode::Octal(0o17777).resolve(FILE, 0), Ok(0o7777));
    assert_eq!(ChmodMode::Octal(u32::MAX).resolve(FILE, 0), Ok(0o7777));
}

#[test]
fn absolute_mode_twice_is_absolute_mode_once() {
    let mode = ChmodMode::Octal(0o640);
    let once = mode.resolve(FILE | 0o777, 0o022).unwrap();
    let twice = mode.resolve(FILE | once, 0o022).unwrap();
    assert_eq!(once, 0o640);
    assert_eq!(twice, once);
}

#[test]
fn symbolic_owner_execute() {
    assert_eq!(ChmodMode::new("u+x").resolve(FILE | 0o644, 0o022), Ok(0o744));
    assert_eq!(ChmodMode::new("u+x").resolve(0o644, 0o022), Ok(0o744));
}

#[test]
fn symbolic_changes_follow_the_current_bits() {
    assert_eq!(ChmodMode::new("go-w").resolve(FILE | 0o666, 0), Ok(0o644));
    assert_eq!(ChmodMode::new("a=r").resolve(FILE | 0o777, 0), Ok(0o444));
    assert_eq!(ChmodMode::new("u=rw,go=r").resolve(FILE | 0o777, 0), Ok(0o644));
    assert_eq!(ChmodMode::new("g=u").resolve(FILE | 0o750, 0), Ok(0o770));
    assert_eq!(ChmodMode::new("u+s").resolve(FILE | 0o755, 0), Ok(0o4755));
    assert_eq!(ChmodMode::new("-444").resolve(FILE | 0o666, 0), Ok(0o222));
}

#[test]
fn symbolic_search_bit_depends_on_the_file_type() {
    assert_eq!(ChmodMode::new("a+X").resolve(DIRECTORY | 0o644, 0), Ok(0o755));
    assert_eq!(ChmodMode::new("a+X").resolve(FILE | 0o644, 0), Ok(0o644));
}

#[test]
fn symbolic_mode_without_users_respects_the_mask() {
    assert_eq!(ChmodMode::new("+w").resolve(FILE | 0o444, 0o022), Ok(0o644));
    assert_eq!(ChmodMode::new("+w").resolve(FILE | 0o444, 0), Ok(0o666));
    assert_eq!(ChmodMode::new("a+w").resolve(FILE | 0o444, 0o022), Ok(0o666));
}

#[test]
fn malformed_letter_lists_are_reported() {
    assert_eq!(
        ChmodMode::new("u+z").resolve(FILE | 0o644, 0),
        Err(Error::FileMode(ModeParseError::UnexpectedChar("[rwxXst]", 'z')))
    );
    assert_eq!(
        ChmodMode::new("u+r+w").resolve(FILE | 0o644, 0),
        Err(Error::FileMode(ModeParseError::UnexpectedChar("[rwxXst]", '+')))
    );
    assert_eq!(
        ChmodMode::new("u+x,g+q").resolve(FILE | 0o644, 0),
        Err(Error::FileMode(ModeParseError::UnexpectedChar("[rwxXst]", 'q')))
    );
    assert_eq!(
        ChmodMode::new("=rwx ").resolve(FILE | 0o644, 0),
        Err(Error::FileMode(ModeParseError::UnexpectedChar("[rwxXst]", ' ')))
    );
}

#[test]
fn an_earlier_diagnostic_of_the_parser_comes_first() {
    assert_eq!(
        ChmodMode::new("u+x,,g+y").resolve(FILE | 0o644, 0),
        Err(Error::FileMode(ModeParseError::UnexpectedEnd("bits or user flags")))
    );
    assert_eq!(
        ChmodMode::new(",u+q").resolve(FILE | 0o644, 0),
        Err(Error::FileMode(ModeParseError::UnexpectedEnd("bits or user flags")))
    );
    assert_eq!(
        ChmodMode::new("z,u+q").resolve(FILE | 0o644, 0),
        Err(Error::FileMode(ModeParseError::UnexpectedChar("[-+=]", 'z')))
    );
    assert_eq!(
        ChmodMode::new("a=r,=97,u+q").resolve(FILE | 0o644, 0),
        Err(Error::FileMode(ModeParseError::UnexpectedChar("[0-7]", '9')))
    );
    assert_eq!(
        ChmodMode::new("a=r,g+w,u+q,zzz").resolve(FILE | 0o644, 0),
        Err(Error::FileMode(ModeParseError::UnexpectedChar("[rwxXst]", 'q')))
    );
    assert_eq!(
        ChmodMode::new("u+q,,").resolve(FILE | 0o644, 0),
        Err(Error::FileMode(ModeParseError::UnexpectedChar("[rwxXst]", 'q')))
    );
}

#[test]
fn a_broken_list_yields_to_what_the_parser_said_before() {
    let broken = ModeParseError::UnexpectedChar("[rwxXst]", 'q');
    let earlier = ModeParseError::UnexpectedEnd("operator");
    assert_eq!(broken_list_error(None, 'q'), broken);
    assert_eq!(broken_list_error(Some(Ok(0o100644)), 'q'), broken);
    assert_eq!(broken_list_error(Some(Err(earlier)), 'q'), earlier);
    assert_eq!(
        broken_list_error(Some(Err(ModeParseError::OctalParseError)), 'q'),
        ModeParseError::OctalParseError
    );
}

#[test]
fn broken_lists_are_found_with_their_clause() {
    assert_eq!(find_broken_list("u+x"), None);
    assert_eq!(find_broken_list("u+z"), Some((0, 'z')));
    assert_eq!(find_broken_list("u+x,g+q"), Some((4, 'q')));
    assert_eq!(find_broken_list("u+x,,g+y"), Some((5, 'y')));
    assert_eq!(find_broken_list(",u+q,g+p"), Some((1, 'q')));
    assert_eq!(find_broken_list("\u{e9},+\u{e8}"), Some((2, '\u{e8}')));
}

#[test]
fn parser_diagnostics_are_passed_on() {
    assert_eq!(
        ChmodMode::new("x").resolve(FILE | 0o644, 0),
        Err(Error::FileMode(ModeParseError::UnexpectedChar("[-+=]", 'x')))
    );
    assert_eq!(
        ChmodMode::Symbolic("").resolve(FILE | 0o644, 0),
        Err(Error::FileMode(ModeParseError::UnexpectedEnd("bits or user flags")))
    );
    assert_eq!(
        ChmodMode::Symbolic("u").resolve(FILE | 0o644, 0),
        Err(Error::FileMode(ModeParseError::UnexpectedEnd("bits or user flags")))
    );
    assert_eq!(
        ChmodMode::new("=97").resolve(FILE | 0o644, 0),
        Err(Error::FileMode(ModeParseError::UnexpectedChar("[0-7]", '9')))
    );
    assert_eq!(
        ChmodMode::new("=77777777777777").resolve(FILE | 0o644, 0),
        Err(Error::FileMode(ModeParseError::OctalParseError))
    );
}

#[test]
fn letter_lists_are_checked_clause_by_clause() {
    assert_eq!(find_bad_bit("u+x"), None);
    assert_eq!(find_bad_bit(""), None);
    assert_eq!(find_bad_bit("ugoa"), None);
    assert_eq!(find_bad_bit("u=g+x"), None);
    assert_eq!(find_bad_bit("u=g+xz"), Some('z'));
    assert_eq!(find_bad_bit("a+rwxXst"), None);
    assert_eq!(find_bad_bit("a+rwxXstu"), Some('u'));
    assert_eq!(find_bad_bit("u+7"), None);
    assert_eq!(find_bad_bit("u+9"), Some('9'));
    assert_eq!(find_bad_bit("u+x,,g+y"), Some('y'));
    assert_eq!(find_bad_bit("zzz"), None);
    assert_eq!(find_bad_bit("+"), None);
    assert_eq!(find_bad_bit("+\u{e9}"), Some('\u{e9}'));
}

#[test]
fn trailing_separators_are_removed() {
    assert_eq!(strip_trailing_separator(b"dir/".to_vec()), b"dir".to_vec());
    assert_eq!(strip_trailing_separator(b"dir".to_vec()), b"dir".to_vec());
    assert_eq!(strip_trailing_separator(b"a/b/".to_vec()), b"a/b".to_vec());
    assert_eq!(strip_trailing_separator(b"dir//".to_vec()), b"dir".to_vec());
    assert_eq!(strip_trailing_separator(b"/d///".to_vec()), b"/d".to_vec());
    assert_eq!(strip_trailing_separator(b"a//b/".to_vec()), b"a//b".to_vec());
    assert_eq!(strip_trailing_separator(b"/".to_vec()), b"".to_vec());
    assert_eq!(strip_trailing_separator(b"//".to_vec()), b"".to_vec());
    assert_eq!(strip_trailing_separator(Vec::new()), Vec::<u8>::new());
}

#[test]
fn every_root_is_normalised_in_order() {
    let roots = vec![b"a/".to_vec(), b"b".to_vec(), b"c/d///".to_vec()];
    assert_eq!(strip_all(roots), vec![b"a".to_vec(), b"b".to_vec(), b"c/d".to_vec()]);
    assert_eq!(strip_all(Vec::new()), Vec::<Vec<u8>>::new());
}

#[test]
fn only_directories_are_entered() {
    assert!(enters(EntryKind::Directory));
    assert!(!enters(EntryKind::File));
    assert!(!enters(EntryKind::Symlink));
    assert!(!enters(EntryKind::Other));
}

#[test]
fn roots_are_classified_by_their_own_metadata() {
    let path = b"/some/where".to_vec();
    assert_eq!(classify(&path, Ok(EntryKind::Directory), false), Verdict::Enter);
    assert_eq!(classify(&path, Ok(EntryKind::File), false), Verdict::Apply);
    assert_eq!(classify(&path, Ok(EntryKind::Symlink), true), Verdict::Apply);
    assert_eq!(classify(&path, Ok(EntryKind::Other), true), Verdict::Apply);
}

#[test]
fn a_missing_root_is_fatal_unless_forced() {
    let path = b"/not/there".to_vec();
    assert_eq!(
        classify(&path, Err(missing()), false),
        Verdict::Fail(Error::NotFound { file: b"/not/there".to_vec() })
    );
    assert_eq!(classify(&path, Err(missing()), true), Verdict::Skip);
}

#[test]
fn other_metadata_failures_are_fatal_even_when_forced() {
    let path = b"/locked".to_vec();
    let expected = Verdict::Fail(Error::Io {
        error: denied(),
        context: Context { operation: Operation::ReadMetadata, path: b"/locked".to_vec() },
    });
    assert_eq!(classify(&path, Err(denied()), false), expected);
    assert_eq!(classify(&path, Err(denied()), true), expected);
}

#[test]
fn the_first_failure_wins() {
    let outcomes = vec![
        Ok(()),
        Err(Error::NotFound { file: b"first".to_vec() }),
        Ok(()),
        Err(Error::Internal),
    ];
    assert_eq!(combine(outcomes), Err(Error::NotFound { file: b"first".to_vec() }));
}

#[test]
fn success_needs_every_branch() {
    assert_eq!(combine(vec![Ok(()), Ok(()), Ok(())]), Ok(()));
    assert_eq!(combine(Vec::new()), Ok(()));
    assert_eq!(combine(vec![Ok(()), Err(Error::BadPath)]), Err(Error::BadPath));
}

#[test]
fn the_slot_keeps_what_it_got_first() {
    let mut slot = FirstError::new();
    assert!(!slot.is_set());
    slot.record(Error::Join);
    slot.record(Error::PreserveRoot);
    assert!(slot.is_set());
    assert_eq!(slot.take(), Some(Error::Join));
    assert!(!slot.is_set());
    assert_eq!(slot.outcome(), Ok(()));
}
