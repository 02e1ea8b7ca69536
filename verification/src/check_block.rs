//! The command that validates one block: its options, and how the text that
//! names the block becomes a block identifier.

use vstd::prelude::*;
use vstd::string::*;

verus! {

/// Options shared by all commands.
#[derive(Clone, Debug)]
pub struct SharedParams {
    /// The chain specification to use.
    pub chain: Option<String>,
    /// Whether the development chain is used.
    pub dev: bool,
    /// A custom base path.
    pub base_path: Option<String>,
    /// A custom logging filter.
    pub log: Option<String>,
}

/// Options of commands that import blocks.
#[derive(Clone, Debug)]
pub struct ImportParams {
    /// The pruning mode: a number of blocks to keep, or `archive`.
    pub pruning: Option<String>,
    /// The size of the state cache, in bytes.
    pub state_cache_size: usize,
}

/// The `check-block` command, used to validate blocks.
#[derive(Clone, Debug)]
pub struct CheckBlockCmd {
    /// Block hash or number.
    pub input: String,
    /// The default number of 64KB pages to ever allocate for Wasm execution.
    pub default_heap_pages: Option<u32>,
    /// Options shared by all commands.
    pub shared_params: SharedParams,
    /// Options of commands that import blocks.
    pub import_params: ImportParams,
}

/// What names a block: its hash or its number.
#[derive(Clone, Debug, PartialEq, Eq)]
pub enum BlockId<H> {
    /// The block with this hash.
    Hash(H),
    /// The block with this number.
    Number(u32),
}

/// Why a command was rejected.
#[derive(Clone, Debug, PartialEq, Eq)]
pub enum Error {
    /// The input of the user was invalid.
    Input(String),
}

/// The text with a leading `0x` taken off, if it has one.
pub open spec fn without_hex_prefix(text: Seq<char>) -> Seq<char> {
    if text.len() >= 2 && text[0] == '0' && text[1] == 'x' {
        text.skip(2)
    } else {
        text
    }
}

/// The value of a decimal digit; none for any other character.
pub open spec fn digit_of(c: char) -> Option<int> {
    if 48 <= c as u32 <= 57 {
        Some(c as u32 - 48)
    } else {
        None
    }
}

/// The value of a string of decimal digits; none where a character is no digit.
pub open spec fn digits_value(digits: Seq<char>) -> Option<int>
    decreases digits.len(),
{
    if digits.len() == 0 {
        Some(0)
    } else {
        match (digits_value(digits.drop_last()), digit_of(digits.last())) {
            (Some(high), Some(low)) => Some(high * 10 + low),
            _ => None,
        }
    }
}

/// The number that `text` is the decimal notation of: an optional `+`, then
/// one or more digits, with a value that fits in 32 bits. None for any other text.
pub open spec fn number_of(text: Seq<char>) -> Option<u32> {
    let digits = if text.len() > 0 && text[0] == '+' {
        text.skip(1)
    } else {
        text
    };
    if digits.len() == 0 {
        None
    } else {
        match digits_value(digits) {
            Some(v) => if v <= u32::MAX {
                Some(v as u32)
            } else {
                None
            },
            None => None,
        }
    }
}

/// The value of the first digits of a string of digits is no more than the
/// value of the whole.
proof fn lemma_digits_prefix(digits: Seq<char>, n: int)
    requires
        0 <= n <= digits.len(),
        digits_value(digits) is Some,
    ensures
        digits_value(digits.take(n)) matches Some(v) && 0 <= v <= digits_value(digits).unwrap(),
    decreases digits.len(),
{
    if n == digits.len() {
        assert(digits.take(n) == digits);
        if digits.len() > 0 {
            lemma_digits_prefix(digits.drop_last(), n - 1);
            assert(digits.drop_last().take(n - 1) == digits.drop_last());
        }
    } else {
        lemma_digits_prefix(digits.drop_last(), n);
        assert(digits.drop_last().take(n) == digits.take(n));
    }
}

/// Reads a decimal digit.
fn digit(c: char) -> (r: Option<u64>)
    ensures
        match r {
            Some(d) => digit_of(c) == Some(d as int) && d <= 9,
            None => digit_of(c) is None,
        },
{
    let code: u32 = c as u32;
    if 48 <= code && code <= 57 {
        Some((code - 48) as u64)
    } else {
        None
    }
}

/// Reads `text` as the decimal notation of a number of 32 bits.
pub fn parse_number(text: &str) -> (r: Option<u32>)
    ensures
        r == number_of(text@),
{
    let n: usize = text.unicode_len();
    let start: usize = if n > 0 && text.get_char(0) == '+' {
        1
    } else {
        0
    };
    if start == n {
        return None;
    }
    let ghost digits = text@.skip(start as int);
    let mut value: u64 = 0;
    let mut i: usize = start;
    assert(digits.take(0) == Seq::<char>::empty());
    assert(text@.skip(0) == text@);
    while i < n
        invariant
            start <= i <= n,
            start < n,
            n == text@.len(),
            digits == if text@.len() > 0 && text@[0] == '+' {
                text@.skip(1)
            } else {
                text@
            },
            digits == text@.skip(start as int),
            digits_value(digits.take(i - start)) == Some(value as int),
            value <= u32::MAX,
        decreases n - i,
    {
        let c: char = text.get_char(i);
        let found = digit(c);
        proof {
            let longer = digits.take(i + 1 - start);
            assert(longer.drop_last() == digits.take(i - start));
            assert(longer.last() == c);
            assert(digits_value(longer) == match found {
                Some(d) => Some(value * 10 + d),
                None => None,
            });
            if digits_value(digits) is Some {
                lemma_digits_prefix(digits, i + 1 - start);
            }
        }
        match found {
            Some(d) => {
                let next: u64 = value * 10 + d;
                if next > 0xffff_ffff {
                    return None;
                }
                value = next;
            },
            None => {
                return None;
            },
        }
        i += 1;
    }
    assert(digits.take(n - start) == digits);
    Some(value as u32)
}

impl CheckBlockCmd {
    /// The text to read a block hash from: the input without a leading `0x`.
    pub fn hash_text(&self) -> (r: String)
        ensures
            r@ == without_hex_prefix(self.input@),
    {
        let text = self.input.as_str();
        let n: usize = text.unicode_len();
        if n >= 2 && text.get_char(0) == '0' && text.get_char(1) == 'x' {
            let rest = text.substring_char(2, n);
            assert(text@.subrange(2, n as int) == text@.skip(2));
            String::from_str(rest)
        } else {
            String::from_str(text)
        }
    }

    /// Names the block to check. `hash` is what reading `hash_text` as a block
    /// hash gave. A hash that was read names the block. Else the whole input,
    /// read as a decimal number, does. Else the input is rejected.
    pub fn block_id<H>(&self, hash: Option<H>) -> (r: Result<BlockId<H>, Error>)
        ensures
            match r {
                Ok(BlockId::Hash(h)) => hash == Some(h),
                Ok(BlockId::Number(n)) => hash is None && number_of(self.input@) == Some(n),
                Err(Error::Input(message)) => hash is None && number_of(self.input@) is None
                    && message@ == "Invalid hash or number specified"@,
            },
    {
        match hash {
            Some(h) => Ok(BlockId::Hash(h)),
            None => match parse_number(self.input.as_str()) {
                Some(n) => Ok(BlockId::Number(n)),
                None => Err(Error::Input(String::from_str("Invalid hash or number specified"))),
            },
        }
    }
}

} // verus!
