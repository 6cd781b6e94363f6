use nom::bytes::complete::{is_not, take_while_m_n};
use nom::character::complete::{char, line_ending, space0, space1};
use nom::error::Error;
use nom::multi::count;
use nom::AsChar;
use yarnpkg_parsers::block::item_marker;
use yarnpkg_parsers::lexical;
use yarnpkg_parsers::scalar::{hex_digit, plain_stop, reserved_start};

type Nom<'a> = nom::IResult<&'a [u8], &'a [u8], Error<&'a [u8]>>;

fn samples() -> Vec<Vec<u8>> {
    let pieces: [&[u8]; 12] =
        [b"", b" ", b"\t", b"\n", b"\r", b"\r\n", b"a", b"#", b"  ", b" \t", b"-", b":"];
    let mut all = Vec::new();
    for a in pieces {
        for b in pieces {
            for c in pieces {
                let mut s = a.to_vec();
                s.extend_from_slice(b);
                s.extend_from_slice(c);
                all.push(s);
            }
        }
    }
    all
}

fn taken(input: &[u8], r: Nom) -> Option<usize> {
    match r {
        Ok((rest, _)) => Some(input.len() - rest.len()),
        Err(_) => None,
    }
}

#[test]
fn line_ending_agrees() {
    for s in samples() {
        assert_eq!(lexical::line_ending(&s, 0), taken(&s, line_ending(&s[..])));
    }
}

#[test]
fn horizontal_whitespace_agrees() {
    for s in samples() {
        assert_eq!(Some(lexical::space0(&s, 0)), taken(&s, space0(&s[..])));
    }
}

#[test]
fn item_marker_agrees() {
    for s in samples() {
        let mut input = b"-".to_vec();
        input.extend_from_slice(&s);
        let r: Nom = space1(&input[1..]);
        assert_eq!(item_marker(&input, 0), taken(&input[1..], r).map(|n| n + 1));
    }
}

#[test]
fn indentation_agrees() {
    for s in samples() {
        for n in 0..4 {
            let r: nom::IResult<&[u8], Vec<char>, Error<&[u8]>> = count(char(' '), n)(&s[..]);
            let expected = match r {
                Ok((rest, _)) => Some(s.len() - rest.len()),
                Err(_) => None,
            };
            assert_eq!(lexical::indentation(&s, 0, n), expected);
        }
    }
}

#[test]
fn reserved_bytes_agree() {
    for b in 0..=255u8 {
        let input = [b];
        let first: Nom = is_not("\r\n\t ?:,][{}#&*!|>'\"%@`-")(&input[..]);
        assert_eq!(reserved_start(b), first.is_err());
        let stop: Nom = is_not("\r\n\t ,][{}:#\"'")(&input[..]);
        assert_eq!(plain_stop(b), stop.is_err());
    }
}

#[test]
fn hexadecimal_digits_agree() {
    for b in 0..=255u8 {
        assert_eq!(hex_digit(b).is_some(), b.is_hex_digit());
        if let Some(v) = hex_digit(b) {
            assert_eq!(Some(v), (b as char).to_digit(16));
        }
    }
}

#[test]
fn four_hexadecimal_digits_agree() {
    let inputs: [&[u8]; 8] =
        [b"0041", b"00e9x", b"FFFF0", b"12", b"12g4", b"", b"abcdef", b"123"];
    for s in inputs {
        let r: Nom = take_while_m_n(4, 4, |byte: u8| byte.is_hex_digit())(s);
        let expected = match r {
            Ok((_, digits)) => {
                u32::from_str_radix(std::str::from_utf8(digits).unwrap(), 16).ok()
            }
            Err(_) => None,
        };
        assert_eq!(yarnpkg_parsers::scalar::unicode_escape_digits(s, 0), expected);
    }
}
