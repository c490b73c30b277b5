//! The parsing of what the command line hands over as strings.

use vstd::prelude::*;
use vstd::string::*;
use crate::digits::{chars_of, parse_decimal, value_within};
use crate::error::KvsError;

verus! {

/// The number that `text` denotes as a port: a plus sign may stand first,
/// then at least one decimal digit and nothing else, and the number must fit
/// in 32 bits.
pub open spec fn unsigned_value(text: Seq<char>) -> Option<u32> {
    let digits = if text.len() > 0 && text[0] == '+' {
        text.drop_first()
    } else {
        text
    };
    match value_within(digits, u32::MAX as nat) {
        Some(value) => Some(value as u32),
        None => None,
    }
}

/// Whether position `i` of `addr` holds the only colon of `addr`.
pub open spec fn splits_at(addr: Seq<char>, i: int) -> bool {
    &&& 0 <= i < addr.len()
    &&& addr[i] == ':'
    &&& forall|j: int| 0 <= j < addr.len() && j != i ==> addr[j] != ':'
}

/// What stands before and behind the colon of `addr`, where `addr` holds
/// exactly one colon.
pub open spec fn address_parts(addr: Seq<char>) -> Option<(Seq<char>, Seq<char>)> {
    if exists|i: int| splits_at(addr, i) {
        let i = choose|i: int| splits_at(addr, i);
        Some((addr.subrange(0, i), addr.subrange(i + 1, addr.len() as int)))
    } else {
        None
    }
}

/// The host and the port that `addr` names, or the reason why it names none.
pub open spec fn address_of(addr: Seq<char>) -> Result<(Seq<char>, u32), Seq<char>> {
    match address_parts(addr) {
        None => Err("Missing ':'"@),
        Some((host, port)) => match unsigned_value(port) {
            Some(number) => Ok((host, number)),
            None => Err("Invalid port number"@),
        },
    }
}

/// How often `c` occurs in `text`.
pub open spec fn count_of(text: Seq<char>, c: char) -> nat
    decreases text.len(),
{
    if text.len() == 0 {
        0
    } else {
        count_of(text.drop_last(), c) + if text.last() == c {
            1nat
        } else {
            0nat
        }
    }
}

/// The number that the characters of `chars` from position `from` on denote
/// as a port.
fn parse_unsigned(chars: &Vec<char>, from: usize) -> (r: Option<u32>)
    requires
        from <= chars.len(),
    ensures
        r == unsigned_value(chars@.subrange(from as int, chars@.len() as int)),
{
    let ghost text = chars@.subrange(from as int, chars@.len() as int);
    let start: usize = if from < chars.len() && chars[from] == '+' {
        from + 1
    } else {
        from
    };
    let ghost digits = chars@.subrange(start as int, chars@.len() as int);
    proof {
        if start > from {
            assert(text[0] == '+');
            assert(text.drop_first() =~= digits);
        } else {
            if text.len() > 0 {
                assert(text[0] == chars@[from as int]);
            }
            assert(text =~= digits);
        }
    }
    match parse_decimal(chars, start, chars.len(), u32::MAX as u64) {
        Some(value) => Some(value as u32),
        None => None,
    }
}

/// Parses an address written as `host:port`. The address must hold exactly
/// one colon, and what stands behind it must be a port number.
pub fn parse_addr(addr: &str) -> (r: Result<(String, u32), KvsError>)
    ensures
        match r {
            Ok((host, port)) => address_of(addr@) == Ok::<(Seq<char>, u32), Seq<char>>(
                (host@, port),
            ),
            Err(KvsError::BadAddressError(detail)) => address_of(addr@) == Err::<
                (Seq<char>, u32),
                Seq<char>,
            >(detail@),
            Err(_) => false,
        },
{
    let chars = chars_of(addr);
    let mut colons: u8 = 0;
    let mut first: usize = 0;
    let mut i: usize = 0;
    while i < chars.len()
        invariant
            0 <= i <= chars.len(),
            colons <= 2,
            colons == 0 ==> forall|j: int| 0 <= j < i ==> chars@[j] != ':',
            colons == 1 ==> first < i && chars@[first as int] == ':' && forall|j: int|
                0 <= j < i && j != first ==> chars@[j] != ':',
            colons == 2 ==> exists|a: int, b: int|
                0 <= a < b < i && chars@[a] == ':' && chars@[b] == ':',
        decreases chars.len() - i,
    {
        if chars[i] == ':' {
            if colons == 0 {
                first = i;
                colons = 1;
            } else {
                proof {
                    if colons == 1 {
                        assert(chars@[first as int] == ':' && chars@[i as int] == ':');
                    } else {
                        let (a, b) = choose|a: int, b: int|
                            0 <= a < b < i && chars@[a] == ':' && chars@[b] == ':';
                        assert(0 <= a < b < i + 1 && chars@[a] == ':' && chars@[b] == ':');
                    }
                }
                colons = 2;
            }
        }
        i = i + 1;
    }
    if colons != 1 {
        proof {
            assert forall|k: int| !splits_at(addr@, k) by {
                if colons == 2 && splits_at(addr@, k) {
                    let (a, b) = choose|a: int, b: int|
                        0 <= a < b < i && chars@[a] == ':' && chars@[b] == ':';
                    assert(a != k || b != k);
                }
            }
        }
        return Err(KvsError::BadAddressError(String::from_str("Missing ':'")));
    }
    proof {
        assert(splits_at(addr@, first as int));
        let k = choose|k: int| splits_at(addr@, k);
        assert(k == first);
    }
    let host = addr.substring_char(0, first).to_owned();
    match parse_unsigned(&chars, first + 1) {
        Some(port) => Ok((host, port)),
        None => Err(KvsError::BadAddressError(String::from_str("Invalid port number"))),
    }
}

/// The port of a socket that `port` stands for: a port that does not fit in
/// 16 bits is no port of a socket.
pub fn socket_port(port: u32) -> (r: Result<u16, KvsError>)
    ensures
        match r {
            Ok(narrow) => narrow == port,
            Err(KvsError::BadAddressError(detail)) => port > u16::MAX && detail@
                == "Invalid port number"@,
            Err(_) => false,
        },
{
    if port <= 65535 {
        Ok(port as u16)
    } else {
        Err(KvsError::BadAddressError(String::from_str("Invalid port number")))
    }
}

/// Parses the verbosity flag: one more than the number of times the letter
/// `v` occurs in it, so that an empty flag gives the first level. A level that
/// no `usize` can hold is an `UnknownError`.
pub fn parse_verbosity(flag: &str) -> (r: Result<usize, KvsError>)
    ensures
        match r {
            Ok(level) => level == count_of(flag@, 'v') + 1,
            Err(KvsError::UnknownError) => count_of(flag@, 'v') + 1 > usize::MAX,
            Err(_) => false,
        },
{
    let chars = chars_of(flag);
    let mut level: usize = 0;
    let mut i: usize = 0;
    assert(chars@.subrange(0, 0) =~= Seq::<char>::empty());
    while i < chars.len()
        invariant
            0 <= i <= chars.len(),
            level == count_of(chars@.subrange(0, i as int), 'v'),
            level <= i,
        decreases chars.len() - i,
    {
        proof {
            assert(chars@.subrange(0, i + 1).drop_last() =~= chars@.subrange(0, i as int));
        }
        if chars[i] == 'v' {
            level = level + 1;
        }
        i = i + 1;
    }
    assert(chars@.subrange(0, i as int) =~= chars@);
    if level == usize::MAX {
        Err(KvsError::UnknownError)
    } else {
        Ok(level + 1)
    }
}

} // verus!
