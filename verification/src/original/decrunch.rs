//! Decrunching in "raw" mode: the whole stream in, the whole data out.
use crate::original::decrunch_options::{DecrunchOptions, DecrunchOptionsBuilder};
use crate::original::encoding::{encoding_header, header_bytes, parse_encoding, parse_encoding_exec, reverse_buffer, tables_view};
use crate::original::exodec::{exo_decrunch, exo_decrunch_run};
use crate::simple::DecrunchError;
use vstd::prelude::*;

verus! {

/// The decoding tables that `opts` give apart from the stream: the header
/// bytes of the imported encoding, if there is one. An imported encoding
/// that is not a list of tables of hexadecimal digits is an error.
pub open spec fn imported_header(opts: DecrunchOptions) -> Result<Option<Seq<u8>>, DecrunchError> {
    let p = opts.options.flags_proto.num();
    match opts.enc {
        None => Ok(None),
        Some(e) => match parse_encoding(e@, p & 16 != 0) {
            None => Err(DecrunchError::DecodingError),
            Some(tabs) => Ok(Some(header_bytes(p, tabs))),
        },
    }
}

/// The data that `decrunch_raw` gives for `input`: a stream crunched
/// backwards is reversed before and after decrunching, and with
/// `write_reverse` the result is reversed once more.
pub open spec fn decrunched_raw(input: Seq<u8>, opts: DecrunchOptions) -> Result<Seq<u8>, DecrunchError> {
    let p = opts.options.flags_proto.num();
    let forward = opts.options.direction_forward;
    let data = if forward {
        input
    } else {
        input.reverse()
    };
    match imported_header(opts) {
        Err(e) => Err(e),
        Ok(enc) => match exo_decrunch(p, enc, data) {
            Err(e) => Err(e),
            Ok(out) => {
                let out1 = if forward {
                    out
                } else {
                    out.reverse()
                };
                Ok(
                    if opts.options.write_reverse {
                        out1.reverse()
                    } else {
                        out1
                    },
                )
            },
        },
    }
}

/// Decrunch packed data.
///
/// For more information see [`crate::original`]. The stream must hold all
/// the bits that decrunching reads; [`decrunch_raw_checked`] takes any
/// stream.
///
/// # Errors
///
/// Data that refers to what it does not hold, and an imported encoding
/// that is not a list of tables of hexadecimal digits, give
/// [`DecrunchError::DecodingError`].
pub fn decrunch_raw(input: &[u8], dopts: &DecrunchOptions) -> (r: Result<Vec<u8>, DecrunchError>)
    requires
        !(decrunched_raw(input@, *dopts) matches Err(DecrunchError::EndOfInput)),
    ensures
        match decrunched_raw(input@, *dopts) {
            Ok(v) => r matches Ok(w) && w@ == v,
            Err(e) => r == Err::<Vec<u8>, DecrunchError>(e),
        },
{
    decrunch_raw_checked(input, dopts)
}

/// Decrunch packed data, as [`decrunch_raw`] does, from any stream.
///
/// # Errors
///
/// Data that is cut short gives [`DecrunchError::EndOfInput`]; the other
/// errors are those of [`decrunch_raw`].
pub fn decrunch_raw_checked(input: &[u8], dopts: &DecrunchOptions) -> (r: Result<Vec<u8>, DecrunchError>)
    ensures
        match decrunched_raw(input@, *dopts) {
            Ok(v) => r matches Ok(w) && w@ == v,
            Err(e) => r == Err::<Vec<u8>, DecrunchError>(e),
        },
{
    let p = dopts.options.flags_proto.as_num();
    let forward = dopts.options.direction_forward;
    let mut data = vstd::slice::slice_to_vec(input);
    if !forward {
        reverse_buffer(&mut data);
    }
    let enc: Option<Vec<u8>> = match &dopts.enc {
        None => None,
        Some(e) => match parse_encoding_exec(e.as_slice(), p & 16 != 0) {
            None => {
                return Err(DecrunchError::DecodingError);
            },
            Some(tabs) => {
                proof {
                    lemma_parsed_tables_bounded(e@, p & 16 != 0);
                    assert(tables_view(tabs@).len() == tabs@.len());
                    assert forall|i: int| 0 <= i < tabs@.len() implies (#[trigger] tabs@[i])@.len() <= 255 by {
                        assert(tables_view(tabs@)[i] == tabs@[i]@);
                    }
                }
                Some(encoding_header(p, &tabs))
            },
        },
    };
    let result = match &enc {
        None => exo_decrunch_run(p, None, data.as_slice()),
        Some(h) => exo_decrunch_run(p, Some(h.as_slice()), data.as_slice()),
    };
    let mut out = result?;
    if !forward {
        reverse_buffer(&mut out);
    }
    if dopts.options.write_reverse {
        reverse_buffer(&mut out);
    }
    Ok(out)
}

/// The options `opts` with `write_reverse` set to `wr`.
pub open spec fn with_write_reverse(opts: DecrunchOptions, wr: bool) -> DecrunchOptions {
    DecrunchOptions { options: DecrunchOptionsBuilder { write_reverse: wr, ..opts.options }, ..opts }
}

/// The options `opts` with `direction_forward` set to `fw`.
pub open spec fn with_direction_forward(opts: DecrunchOptions, fw: bool) -> DecrunchOptions {
    DecrunchOptions { options: DecrunchOptionsBuilder { direction_forward: fw, ..opts.options }, ..opts }
}

/// The reversed data of a result, or its error.
pub open spec fn reversed_result(r: Result<Seq<u8>, DecrunchError>) -> Result<Seq<u8>, DecrunchError> {
    match r {
        Ok(v) => Ok(v.reverse()),
        Err(e) => Err(e),
    }
}

/// Writing in reverse order gives the data that is written without it,
/// reversed, and the same errors.
pub proof fn law_write_reverse_reverses(input: Seq<u8>, opts: DecrunchOptions)
    ensures
        decrunched_raw(input, with_write_reverse(opts, true)) == reversed_result(
            decrunched_raw(input, with_write_reverse(opts, false)),
        ),
{
    if let Ok(v) = decrunched_raw(input, with_write_reverse(opts, false)) {
        assert(v.reverse().reverse() =~= v);
    }
}

/// A stream read backwards is the reversed stream read forwards: the data
/// comes out reversed, and the errors are the same.
pub proof fn law_backwards_is_reversed_forwards(input: Seq<u8>, opts: DecrunchOptions)
    ensures
        decrunched_raw(input.reverse(), with_direction_forward(opts, false)) == reversed_result(
            decrunched_raw(input, with_direction_forward(opts, true)),
        ),
{
    assert(input.reverse().reverse() =~= input);
    let fw = with_direction_forward(opts, true);
    if let Ok(v) = decrunched_raw(input, fw) {
        let p = opts.options.flags_proto.num();
        if let Ok(enc) = imported_header(opts) {
            if let Ok(out) = exo_decrunch(p, enc, input) {
                assert(out.reverse().reverse() =~= out);
            }
        }
    }
}

/// The tables of an encoding are as many as the proto asks for, and none
/// has more than 255 entries.
pub proof fn lemma_parsed_tables_bounded(b: Seq<u8>, four: bool)
    ensures
        parse_encoding(b, four) matches Some(tabs) ==> tabs.len() == crate::original::encoding::table_count(four)
            && forall|i: int| 0 <= i < tabs.len() ==> (#[trigger] tabs[i]).len() <= 255,
{
    lemma_parse_tables_bounded(b, 0, crate::original::encoding::table_count(four));
}

proof fn lemma_parse_tables_bounded(b: Seq<u8>, i: nat, n: nat)
    ensures
        crate::original::encoding::parse_tables(b, i, n) matches Some(tabs) ==> tabs.len() == n && forall|k: int|
            0 <= k < tabs.len() ==> (#[trigger] tabs[k]).len() <= 255,
    decreases n,
{
    if n > 0 {
        if let Some((t, j, comma)) = crate::original::encoding::parse_table(b, i) {
            lemma_parse_tables_bounded(b, j, (n - 1) as nat);
            if let Some(rest) = crate::original::encoding::parse_tables(b, j, (n - 1) as nat) {
                let tabs = seq![t] + rest;
                if t.len() <= 255 {
                assert forall|k: int| 0 <= k < tabs.len() implies (#[trigger] tabs[k]).len() <= 255 by {
                    if k > 0 {
                        assert(tabs[k] == rest[k - 1]);
                    }
                }
                }
            }
        }
    }
}

} // verus!
