use idos_task::cstr::{
    memchr, memrchr, stpcpy, strcasecmp, strcat, strchr, strcmp, strcpy, strdup, strerror, strlen,
    strncasecmp, strncat, strncmp, strncpy, strnlen, strrchr, strstr, strtok,
};
use idos_task::ctype::{
    isalnum, isalpha, iscntrl, isdigit, isgraph, islower, isprint, ispunct, isspace, isupper,
    isxdigit, tolower, toupper,
};
use idos_task::printf::{
    format_int, format_to, format_uint, snprintf, sprintf, vsnprintf, FloatParts, FormatArg,
};
use idos_task::scanf::{sscanf, vsscanf, Scanned};
use idos_task::stdlib::{abs, atoi, atol, labs, strtol, strtoul, ExitHandlers, RandomState};

#[test]
fn character_classes_look_at_the_low_byte() {
    assert_eq!(isdigit('5' as i32), 1);
    assert_eq!(isdigit('a' as i32), 0);
    assert_eq!(isdigit(0x135), 1);
    assert_eq!(isalpha('q' as i32), 1);
    assert_eq!(isalpha('1' as i32), 0);
    assert_eq!(isalnum('_' as i32), 0);
    assert_eq!(isalnum('Z' as i32), 1);
    assert_eq!(isspace('\t' as i32), 1);
    assert_eq!(isspace(0x0b), 1);
    assert_eq!(isspace('x' as i32), 0);
    assert_eq!(isupper('A' as i32), 1);
    assert_eq!(islower('A' as i32), 0);
    assert_eq!(isprint(' ' as i32), 1);
    assert_eq!(isgraph(' ' as i32), 0);
    assert_eq!(isxdigit('F' as i32), 1);
    assert_eq!(isxdigit('g' as i32), 0);
    assert_eq!(iscntrl(0x7f), 1);
    assert_eq!(ispunct('!' as i32), 1);
    assert_eq!(ispunct('a' as i32), 0);
}

#[test]
fn case_mapping_changes_letters_only() {
    assert_eq!(toupper('a' as i32), 'A' as i32);
    assert_eq!(toupper('A' as i32), 'A' as i32);
    assert_eq!(toupper('1' as i32), '1' as i32);
    assert_eq!(tolower('Z' as i32), 'z' as i32);
    assert_eq!(tolower(0x141), 0x161);
    assert_eq!(tolower(-1), -1);
}

#[test]
fn string_lengths_and_comparisons() {
    assert_eq!(strlen(b"hello\0xyz"), 5);
    assert_eq!(strnlen(b"hello\0", 3), 3);
    assert_eq!(strnlen(b"hi\0", 10), 2);
    assert_eq!(strcmp(b"abc\0", b"abd\0"), -1);
    assert_eq!(strcmp(b"abc\0", b"abc\0"), 0);
    assert_eq!(strcmp(b"ab\0", b"abc\0"), -99);
    assert_eq!(strncmp(b"abcx\0", b"abcy\0", 3), 0);
    assert_eq!(strncmp(b"abcx\0", b"abcy\0", 4), -1);
    assert_eq!(strcasecmp(b"HeLLo\0", b"hello\0"), 0);
    assert_eq!(strcasecmp(b"a\0", b"B\0"), -1);
    assert_eq!(strncasecmp(b"ABCd\0", b"abce\0", 3), 0);
}

#[test]
fn copies_and_appends() {
    let mut dest = vec![9u8; 8];
    strcpy(&mut dest, b"hi\0");
    assert_eq!(dest, vec![b'h', b'i', 0, 9, 9, 9, 9, 9]);
    let mut dest = vec![9u8; 4];
    assert_eq!(stpcpy(&mut dest, b"ab\0"), 2);
    assert_eq!(dest, vec![b'a', b'b', 0, 9]);
    let mut dest = vec![9u8; 6];
    strncpy(&mut dest, b"ab\0", 5);
    assert_eq!(dest, vec![b'a', b'b', 0, 0, 0, 9]);
    let mut dest = vec![9u8; 3];
    strncpy(&mut dest, b"abcdef\0", 3);
    assert_eq!(dest, vec![b'a', b'b', b'c']);
    let mut dest = b"ab\0\0\0\0\0".to_vec();
    strcat(&mut dest, b"cd\0");
    assert_eq!(dest, b"abcd\0\0\0".to_vec());
    let mut dest = b"ab\0\0\0\0".to_vec();
    strncat(&mut dest, b"cdef\0", 1);
    assert_eq!(dest, b"abc\0\0\0".to_vec());
    assert_eq!(strdup(b"xy\0zz"), b"xy\0".to_vec());
    assert_eq!(strerror(2), b"Error\0".to_vec());
}

#[test]
fn searching_strings_and_memory() {
    assert_eq!(strchr(b"hello\0", 'l' as i32), Some(2));
    assert_eq!(strchr(b"hello\0", 0), Some(5));
    assert_eq!(strchr(b"hello\0", 'z' as i32), None);
    assert_eq!(strrchr(b"hello\0", 'l' as i32), Some(3));
    assert_eq!(strrchr(b"hello\0", 'z' as i32), None);
    assert_eq!(memchr(b"abcabc", 'c' as i32, 6), Some(2));
    assert_eq!(memrchr(b"abcabc", 'c' as i32, 6), Some(5));
    assert_eq!(memchr(b"abcabc", 'c' as i32, 2), None);
    assert_eq!(strstr(b"hello world\0", b"world\0"), Some(6));
    assert_eq!(strstr(b"hello\0", b"\0"), Some(0));
    assert_eq!(strstr(b"aaa\0", b"b\0"), None);
    assert_eq!(strstr(b"abab\0", b"bab\0"), Some(1));
}

#[test]
fn tokens_split_on_delimiters() {
    let mut buf = b"  a,b;;c\0".to_vec();
    let delim = b",; \0";
    assert_eq!(strtok(&mut buf, Some(0), delim), (Some(2), Some(4)));
    assert_eq!(buf[3], 0);
    assert_eq!(strtok(&mut buf, Some(4), delim), (Some(4), Some(6)));
    assert_eq!(buf[5], 0);
    assert_eq!(strtok(&mut buf, Some(6), delim), (Some(7), None));
    assert_eq!(strtok(&mut buf, None, delim), (None, None));
    let mut only = b";;\0".to_vec();
    assert_eq!(strtok(&mut only, Some(0), delim), (None, None));
}

#[test]
fn integers_read_from_strings() {
    assert_eq!(atoi(b"  -123abc\0"), -123);
    assert_eq!(atoi(b"+42\0"), 42);
    assert_eq!(atoi(b"2147483648\0"), i32::MIN);
    assert_eq!(atol(b"7\0"), 7);
    assert_eq!(strtol(b"0x1F\0", 0), (31, 4));
    assert_eq!(strtol(b"017\0", 0), (15, 3));
    assert_eq!(strtol(b"99\0", 0), (99, 2));
    assert_eq!(strtol(b"  z\0", 36), (35, 3));
    assert_eq!(strtol(b"ff\0", 16), (255, 2));
    assert_eq!(strtol(b"0xg\0", 16), (0, 2));
    assert_eq!(strtol(b"-10\0", 2), (-2, 3));
    assert_eq!(strtoul(b"-1\0", 10), (u32::MAX, 2));
    assert_eq!(abs(-5), 5);
    assert_eq!(abs(5), 5);
    assert_eq!(labs(-9), 9);
}

#[test]
fn random_numbers_follow_the_generator() {
    let mut r = RandomState::new();
    assert_eq!(r.rand(), 16838);
    assert_eq!(r.rand(), 5758);
    assert_eq!(r.rand(), 10113);
    r.srand(42);
    assert_eq!(r.rand(), 19081);
    r.srand(1);
    assert_eq!(r.rand(), 16838);
}

#[test]
fn exit_handlers_run_last_first() {
    let mut h = ExitHandlers::new();
    assert_eq!(h.atexit(1), 0);
    assert_eq!(h.atexit(2), 0);
    assert_eq!(h.atexit(3), 0);
    assert_eq!(h.exit_order(), vec![3, 2, 1]);
    assert_eq!(h.exit_order(), Vec::<u32>::new());
    for k in 0..32u32 {
        assert_eq!(h.atexit(k), 0);
    }
    assert_eq!(h.atexit(99), -1);
}

fn text(fmt: &[u8], args: &[FormatArg]) -> Vec<u8> {
    format_to(fmt, args).bytes
}

#[test]
fn digits_in_any_base() {
    assert_eq!(format_uint(0, 10, false), b"0".to_vec());
    assert_eq!(format_uint(255, 16, true), b"FF".to_vec());
    assert_eq!(format_uint(8, 8, false), b"10".to_vec());
    assert_eq!(format_uint(u64::MAX, 10, false), b"18446744073709551615".to_vec());
    assert_eq!(format_int(-42, 10, false), b"42".to_vec());
}

#[test]
fn integer_conversions() {
    let w = |v: i32| FormatArg::Word(v as u32);
    assert_eq!(text(b"%d\0", &[w(-42)]), b"-42".to_vec());
    assert_eq!(text(b"%+05d\0", &[w(42)]), b"+0042".to_vec());
    assert_eq!(text(b"% d\0", &[w(7)]), b" 7".to_vec());
    assert_eq!(text(b"%-5d|\0", &[w(3)]), b"3    |".to_vec());
    assert_eq!(text(b"%5i\0", &[w(-3)]), b"   -3".to_vec());
    assert_eq!(text(b"%ld %hhd\0", &[w(1), w(2)]), b"1 2".to_vec());
    assert_eq!(text(b"%u\0", &[w(-1)]), b"4294967295".to_vec());
    assert_eq!(text(b"%03u\0", &[w(5)]), b"005".to_vec());
    assert_eq!(text(b"%x\0", &[w(255)]), b"ff".to_vec());
    assert_eq!(text(b"%#x\0", &[w(255)]), b"0xff".to_vec());
    assert_eq!(text(b"%#x\0", &[w(0)]), b"0".to_vec());
    assert_eq!(text(b"%#08X\0", &[w(255)]), b"0X0000FF".to_vec());
    assert_eq!(text(b"%o\0", &[w(8)]), b"10".to_vec());
    assert_eq!(text(b"%p\0", &[w(0x1000)]), b"0x1000".to_vec());
    assert_eq!(text(b"%*d\0", &[w(4), w(7)]), b"   7".to_vec());
    assert_eq!(text(b"%d\0", &[]), b"0".to_vec());
}

#[test]
fn strings_characters_and_the_rest() {
    let s = || FormatArg::Str(b"hi\0".to_vec());
    assert_eq!(text(b"[%4s]\0", &[s()]), b"[  hi]".to_vec());
    assert_eq!(text(b"[%-4s]\0", &[s()]), b"[hi  ]".to_vec());
    assert_eq!(text(b"%.1s\0", &[s()]), b"h".to_vec());
    assert_eq!(text(b"%s\0", &[FormatArg::Null]), b"(null)".to_vec());
    assert_eq!(text(b"%c%c\0", &[FormatArg::Word(0x141), FormatArg::Word('b' as u32)]), b"Ab".to_vec());
    assert_eq!(text(b"100%%\0", &[]), b"100%".to_vec());
    assert_eq!(text(b"%q\0", &[]), b"%q".to_vec());
    assert_eq!(text(b"abc%\0", &[]), b"abc".to_vec());
    assert_eq!(text(b"ab\0cd", &[]), b"ab".to_vec());
    assert_eq!(text(b"ab", &[]), b"ab".to_vec());
}

#[test]
fn count_stores() {
    let f = format_to(b"ab%ncd%n\0", &[FormatArg::Count, FormatArg::Null]);
    assert_eq!(f.bytes, b"abcd".to_vec());
    assert_eq!(f.stores, vec![(0, 2)]);
}

#[test]
fn float_conversions() {
    let pi = || FormatArg::Float(FloatParts { negative: true, int_part: 3, frac_digits: vec![1, 4, 1, 5, 9] });
    let half = || FormatArg::Float(FloatParts { negative: false, int_part: 2, frac_digits: vec![5] });
    assert_eq!(text(b"%.3f\0", &[pi()]), b"-3.141".to_vec());
    assert_eq!(text(b"%f\0", &[half()]), b"2.500000".to_vec());
    assert_eq!(text(b"%.0f\0", &[half()]), b"2".to_vec());
    assert_eq!(text(b"%8.2e\0", &[half()]), b"    2.50".to_vec());
    assert_eq!(text(b"%-6.1g|\0", &[half()]), b"2.5   |".to_vec());
    let long = text(b"%.100f\0", &[half()]);
    assert_eq!(long.len(), 64);
    assert_eq!(&long[..4], b"2.50");
}

#[test]
fn bounded_buffers() {
    let mut buf = vec![7u8; 6];
    let (count, stores) = vsnprintf(&mut buf, 4, b"hello\0", &[]);
    assert_eq!(count, 5);
    assert!(stores.is_empty());
    assert_eq!(buf, vec![b'h', b'e', b'l', 0, 7, 7]);
    let mut buf = vec![7u8; 3];
    let (count, _) = snprintf(&mut buf, 0, b"hello\0", &[]);
    assert_eq!(count, 5);
    assert_eq!(buf, vec![7, 7, 7]);
    let mut buf = vec![7u8; 8];
    let (count, _) = sprintf(&mut buf, b"n=%d\0", &[FormatArg::Word(12)]);
    assert_eq!(count, 4);
    assert_eq!(buf, vec![b'n', b'=', b'1', b'2', 0, 7, 7, 7]);
}

fn ints_and_words(v: &[Scanned]) -> Vec<String> {
    v.iter()
        .map(|x| match x {
            Scanned::Int(n) => format!("{}", n),
            Scanned::Text(t) => String::from_utf8(t.clone()).unwrap(),
        })
        .collect()
}

#[test]
fn scanning_values() {
    let (n, v) = vsscanf(b"  12 abc -7\0", b"%d %s %d\0");
    assert_eq!(n, 3);
    assert_eq!(ints_and_words(&v), vec!["12", "abc", "-7"]);
    let (n, _) = vsscanf(b"x=5\0", b"y=%d\0");
    assert_eq!(n, 0);
    let (n, v) = sscanf(b"x=5\0", b"x=%i\0");
    assert_eq!(n, 1);
    assert_eq!(ints_and_words(&v), vec!["5"]);
    let (n, _) = vsscanf(b"abc\0", b"%d\0");
    assert_eq!(n, 0);
    let (n, v) = vsscanf(b"-\0", b"%d\0");
    assert_eq!(n, 1);
    assert_eq!(ints_and_words(&v), vec!["0"]);
    let (n, _) = vsscanf(b"5\0", b"%d%x\0");
    assert_eq!(n, 1);
}

use idos_task::dirent::{free_slot, DirStep, DIR};
use idos_task::stdio::{
    clearerr, fclose, feof, ferror, fgetc_finish, fgetc_start, fputc_finish, fputs_result,
    fread_finish, fseek, ftell, fwrite_finish, hex_word, opens_for_append, rewind, translate_path,
    ungetc, GetStep, LineReader, LineStep, TempNames, EOF, FILE, SEEK_CUR, SEEK_END, SEEK_SET,
};

#[test]
fn paths_for_the_kernel() {
    let mut buf = vec![0xffu8; 16];
    assert_eq!(translate_path(b"/dir/file.txt\0", &mut buf), 15);
    assert_eq!(&buf[..16], b"C:\\dir\\file.txt\0");
    let mut buf = vec![0xffu8; 8];
    assert_eq!(translate_path(b"D:/x\0", &mut buf), 4);
    assert_eq!(&buf[..5], b"D:\\x\0");
    let mut buf = vec![0xffu8; 8];
    assert_eq!(translate_path(b"\\a\0", &mut buf), 2);
    assert_eq!(&buf[..3], b"\\a\0");
    let mut buf = vec![0xffu8; 4];
    assert_eq!(translate_path(b"abcdef\0", &mut buf), 3);
    assert_eq!(buf, b"C:a\0".to_vec());
    let mut buf = vec![0xffu8; 2];
    assert_eq!(translate_path(b"ab\0", &mut buf), 1);
    assert_eq!(buf, b"a\0".to_vec());
}

#[test]
fn temporary_names_count_up() {
    let mut t = TempNames::new();
    assert_eq!(t.tmpnam(), b"C:\\TMP\\t1\0".to_vec());
    assert_eq!(t.tmpnam(), b"C:\\TMP\\t2\0".to_vec());
    for _ in 0..8 {
        t.tmpnam();
    }
    assert_eq!(t.tmpnam(), b"C:\\TMP\\t11\0".to_vec());
}

#[test]
fn debug_words_in_hex() {
    assert_eq!(hex_word(0x1234abcd), b"0x1234ABCD".to_vec());
    assert_eq!(hex_word(0), b"0x00000000".to_vec());
}

#[test]
fn streams_keep_their_state() {
    assert!(opens_for_append(b"a+\0"));
    assert!(!opens_for_append(b"r\0a"));
    let mut f = FILE::opened(5, Some(100));
    assert_eq!(ftell(&f), 100);
    assert_eq!(fseek(&mut f, -10, SEEK_CUR, 0), 0);
    assert_eq!(ftell(&f), 90);
    assert_eq!(fseek(&mut f, 4, SEEK_END, 50), 0);
    assert_eq!(ftell(&f), 54);
    assert_eq!(fseek(&mut f, 7, SEEK_SET, 0), 0);
    assert_eq!(ftell(&f), 7);
    assert_eq!(fseek(&mut f, 7, 9, 0), -1);
    assert_eq!(ungetc('x' as i32, &mut f), 'x' as i32);
    assert!(matches!(fgetc_start(&mut f), GetStep::Done(c) if c == 'x' as i32));
    assert!(matches!(fgetc_start(&mut f), GetStep::ReadAt(7)));
    assert_eq!(fgetc_finish(&mut f, Some(b'q')), 'q' as i32);
    assert_eq!(ftell(&f), 8);
    assert_eq!(fgetc_finish(&mut f, None), EOF);
    assert_eq!(feof(&f), 1);
    assert_eq!(fputc_finish(&mut f, 'z' as i32, false), EOF);
    assert_eq!(ferror(&f), 1);
    clearerr(&mut f);
    assert_eq!((feof(&f), ferror(&f)), (0, 0));
    assert_eq!(fread_finish(&mut f, 4, Ok(10)), 2);
    assert_eq!(ftell(&f), 18);
    assert_eq!(fread_finish(&mut f, 4, Ok(0)), 0);
    assert_eq!(feof(&f), 1);
    assert_eq!(fwrite_finish(&mut f, 1, Ok(3)), 3);
    assert_eq!(ftell(&f), 21);
    assert_eq!(fwrite_finish(&mut f, 1, Err(5)), 0);
    rewind(&mut f);
    assert_eq!((ftell(&f), ferror(&f), feof(&f)), (0, 0, 0));
    assert_eq!(fputs_result(3, 0), EOF);
    assert_eq!(fputs_result(0, 0), 0);
    assert_eq!(fclose(&mut f), (0, true));
    assert_eq!(fclose(&mut f), (EOF, false));
    assert_eq!(ftell(&f), -1);
    let mut con = FILE::console(1);
    assert_eq!(fclose(&mut con), (0, false));
}

#[test]
fn lines_end_at_newline_or_room() {
    assert!(LineReader::fgets_start(0).is_none());
    let mut r = LineReader::fgets_start(4).unwrap();
    assert!(r.wants_more());
    assert!(matches!(r.accept('a' as i32), LineStep::Read));
    assert!(matches!(r.accept('\n' as i32), LineStep::Finished(Some(ref v)) if v == b"a\n\0"));
    let mut r = LineReader::fgets_start(3).unwrap();
    r.accept('x' as i32);
    r.accept('y' as i32);
    assert!(!r.wants_more());
    assert_eq!(r.finish(), b"xy\0".to_vec());
    let mut r = LineReader::fgets_start(3).unwrap();
    assert!(matches!(r.accept(EOF), LineStep::Finished(None)));
    let mut r = LineReader::fgets_start(5).unwrap();
    r.accept('k' as i32);
    assert!(matches!(r.accept(EOF), LineStep::Finished(Some(ref v)) if v == b"k\0"));
}

fn names(d: &mut DIR, mut chunks: Vec<Vec<u8>>) -> Vec<Vec<u8>> {
    let mut out = Vec::new();
    loop {
        match d.readdir() {
            DirStep::Entry(name) => out.push(name),
            DirStep::End => return out,
            DirStep::ReadInto { .. } => {
                let data = if chunks.is_empty() { None } else { Some(chunks.remove(0)) };
                if !d.refill(data) {
                    return out;
                }
            }
        }
    }
}

#[test]
fn directory_entries_across_reads() {
    let mut d = DIR::opened(9);
    let got = names(&mut d, vec![b"one\0tw".to_vec(), b"o\0three".to_vec()]);
    assert_eq!(got, vec![b"one".to_vec(), b"two".to_vec()]);
    let mut d = DIR::opened(9);
    let got = names(&mut d, vec![b"\0ab\0c\0".to_vec()]);
    assert_eq!(got, vec![b"\0ab".to_vec(), b"c".to_vec()]);
    assert_eq!(d.closedir(), 0);
    assert_eq!(d.closedir(), -1);
    assert!(matches!(d.readdir(), DirStep::End));
    assert_eq!(free_slot(&[true, false, true]), Some(1));
    assert_eq!(free_slot(&[true, true]), None);
}

use idos_task::posix::{
    clock, fstat_status, getcwd, gmtime, isatty, localtime, mktime, sleep_ms, stat_from_status,
    strftime, time, tm, usleep_ms, S_IFDIR, S_IFREG,
};

#[test]
fn file_status_from_the_kernel() {
    let d = stat_from_status(3, 2, 1000, 77);
    assert_eq!(d.st_mode, S_IFDIR | 0o755);
    assert_eq!((d.st_dev, d.st_nlink, d.st_size, d.st_blksize, d.st_blocks), (3, 1, 1000, 512, 2));
    assert_eq!((d.st_atime, d.st_mtime, d.st_ctime), (77, 77, 77));
    let f = stat_from_status(0, 1, 0, 0);
    assert_eq!(f.st_mode, S_IFREG | 0o644);
    assert_eq!(f.st_blocks, 0);
    assert_eq!(fstat_status().st_mode, S_IFREG | 0o644);
}

#[test]
fn terminals_sleeping_and_directories() {
    assert_eq!(isatty(0), 1);
    assert_eq!(isatty(2), 1);
    assert_eq!(isatty(3), 0);
    assert_eq!(isatty(-1), 0);
    assert_eq!(usleep_ms(10), 1);
    assert_eq!(usleep_ms(2500), 2);
    assert_eq!(sleep_ms(3), 3000);
    let mut buf = vec![9u8; 6];
    assert!(getcwd(&mut buf, 6));
    assert_eq!(buf, vec![b'C', b':', b'\\', 0, 9, 9]);
    let mut small = vec![9u8; 3];
    assert!(!getcwd(&mut small, 3));
    assert_eq!(small, vec![9, 9, 9]);
}

#[test]
fn time_of_day() {
    assert_eq!(time(12345), 123);
    assert_eq!(clock(7), 70000);
    assert_eq!(clock(500_000), (500_000u64 * 10000) as u32);
    let mut t = tm::initial();
    localtime(&mut t, 3725);
    assert_eq!((t.tm_hour, t.tm_min, t.tm_sec, t.tm_year, t.tm_mday), (1, 2, 5, 95, 1));
    assert_eq!(mktime(&t), 3725);
    gmtime(&mut t, -61);
    assert_eq!((t.tm_hour, t.tm_min, t.tm_sec), (0, -1, -1));
    let mut s = vec![7u8; 2];
    assert_eq!(strftime(&mut s, 2), 0);
    assert_eq!(s, vec![0, 7]);
}

#[test]
fn a_copy_compares_equal_to_its_source() {
    let mut dest = vec![b'z'; 8];
    strcpy(&mut dest, b"copy\0");
    assert_eq!(strcmp(&dest, b"copy\0"), 0);
    assert_eq!(strcmp(b"copy\0", &dest), 0);
}

#[test]
fn memory_maps() {
    use_mmap();
}

fn use_mmap() {
    assert_eq!(idos_task::posix::mmap_request(0), None);
    assert_eq!(idos_task::posix::mmap_request(0x4000), Some(0x4000));
    assert_eq!(idos_task::posix::mmap_result(Ok(0x5000)), 0x5000);
    assert_eq!(idos_task::posix::mmap_result(Err(())), idos_task::posix::MAP_FAILED);
}
