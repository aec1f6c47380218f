//! Standard base64, for handing text to the terminal clipboard (OSC 52).
use vstd::prelude::*;

verus! {

/// The character for `n` (0..64) in the standard base64 alphabet.
pub open spec fn b64_char(n: int) -> char {
    if n < 26 {
        (65 + n) as char
    } else if n < 52 {
        (97 + n - 26) as char
    } else if n < 62 {
        (48 + n - 52) as char
    } else if n == 62 {
        '+'
    } else {
        '/'
    }
}

/// The byte at `i` of a chunk, 0 past its end.
pub open spec fn byte_or_zero(c: Seq<u8>, i: int) -> int {
    if i < c.len() {
        c[i] as int
    } else {
        0
    }
}

/// The four characters that encode a chunk of one to three bytes, padded
/// with '='.
pub open spec fn b64_chunk(c: Seq<u8>) -> Seq<char> {
    let n = byte_or_zero(c, 0) * 65536 + byte_or_zero(c, 1) * 256 + byte_or_zero(c, 2);
    seq![
        b64_char(n / 262144 % 64),
        b64_char(n / 4096 % 64),
        if c.len() > 1 {
            b64_char(n / 64 % 64)
        } else {
            '='
        },
        if c.len() > 2 {
            b64_char(n % 64)
        } else {
            '='
        },
    ]
}

/// Standard base64 with padding: the input in chunks of three bytes.
pub open spec fn base64_of(input: Seq<u8>) -> Seq<char>
    decreases input.len(),
{
    if input.len() == 0 {
        seq![]
    } else if input.len() <= 3 {
        b64_chunk(input)
    } else {
        b64_chunk(input.take(3)) + base64_of(input.skip(3))
    }
}

fn b64_digit(n: u32) -> (c: char)
    requires
        n < 64,
    ensures
        c == b64_char(n as int),
{
    let t: Vec<char> = vec![
        'A', 'B', 'C', 'D', 'E', 'F', 'G', 'H', 'I', 'J', 'K', 'L', 'M', 'N', 'O', 'P', 'Q', 'R',
        'S', 'T', 'U', 'V', 'W', 'X', 'Y', 'Z', 'a', 'b', 'c', 'd', 'e', 'f', 'g', 'h', 'i', 'j',
        'k', 'l', 'm', 'n', 'o', 'p', 'q', 'r', 's', 't', 'u', 'v', 'w', 'x', 'y', 'z', '0', '1',
        '2', '3', '4', '5', '6', '7', '8', '9', '+', '/',
    ];
    proof {
        assert(forall|k: int| 0 <= k < 64 ==> #[trigger] t@[k] == b64_char(k)) by {
            assert(t@[0] == b64_char(0));
        }
    }
    t[n as usize]
}

/// Standard base64, no padding elided.
pub fn base64(input: &[u8]) -> (s: String)
    ensures
        s@ == base64_of(input@),
{
    let mut out = String::new();
    let mut i: usize = 0;
    assert(input@.skip(0) =~= input@);
    while i < input.len()
        invariant
            i <= input.len(),
            out@ + base64_of(input@.skip(i as int)) == base64_of(input@),
        decreases input.len() - i,
    {
        let rest = input.len() - i;
        let len: usize = if rest < 3 {
            rest
        } else {
            3
        };
        let b0 = input[i] as u32;
        let b1 = if len > 1 {
            input[i + 1] as u32
        } else {
            0
        };
        let b2 = if len > 2 {
            input[i + 2] as u32
        } else {
            0
        };
        let n = b0 * 65536 + b1 * 256 + b2;
        let ghost chunk = input@.subrange(i as int, (i + len) as int);
        let ghost tail = input@.skip(i as int);
        assert(byte_or_zero(chunk, 0) == b0);
        assert(byte_or_zero(chunk, 1) == b1);
        assert(byte_or_zero(chunk, 2) == b2);
        let ghost before = out@;
        out.push(b64_digit(n / 262144 % 64));
        out.push(b64_digit(n / 4096 % 64));
        out.push(
            if len > 1 {
                b64_digit(n / 64 % 64)
            } else {
                '='
            },
        );
        out.push(
            if len > 2 {
                b64_digit(n % 64)
            } else {
                '='
            },
        );
        assert(out@ =~= before + b64_chunk(chunk));
        if rest <= 3 {
            assert(tail =~= chunk);
            assert(input@.skip((i + len) as int).len() == 0);
        } else {
            assert(tail.take(3) =~= chunk);
            assert(tail.skip(3) =~= input@.skip((i + len) as int));
        }
        i = i + len;
    }
    assert(out@ + base64_of(input@.skip(i as int)) =~= out@);
    out
}

/// Base64 output is four characters per started chunk of three bytes.
pub proof fn lemma_base64_len(input: Seq<u8>)
    ensures
        base64_of(input).len() == 4 * ((input.len() + 2) / 3),
    decreases input.len(),
{
    if input.len() > 3 {
        lemma_base64_len(input.skip(3));
    }
}

} // verus!
