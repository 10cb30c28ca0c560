//! The tile-layer payload decoder.
//!
//! A layer payload arrives either as inline text (csv or base64, the latter
//! optionally compressed) or, in the legacy style, as a list of per-tile gid
//! values already extracted from child elements. The decoder classifies the
//! `encoding`/`compression` attribute pair, decodes the payload into a flat
//! sequence of 32-bit tile gids, and checks the sequence against the layer's
//! declared area.

use vstd::prelude::*;
use vstd::arithmetic::div_mod::lemma_fundamental_div_mod;
use vstd::bytes::{spec_u32_from_le_bytes, spec_u32_to_le_bytes, u32_from_le_bytes, u32_to_le_bytes,
    lemma_auto_spec_u32_to_from_le_bytes};
use vstd::slice::slice_subrange;
use crate::error::Error;
use crate::text::{all_dec_digits, chars_of, dec_digits, dec_val, is_dec_digit, is_space_char,
    is_space_char_exec, lemma_dec_digits, parse_csv_token, parse_token_span, push_dec_digits,
    string_of_chars, str_eq, trim_end_spec, trim_spec, trim_start_spec};

verus! {

/// A compression scheme that may accompany base64 encoding.
#[derive(Clone, Copy, PartialEq, Eq, Debug)]
pub enum Compression {
    Zlib,
    Gzip,
    Zstd,
}

/// A validated combination of the `encoding` and `compression` attributes.
#[derive(Clone, Copy, Debug)]
pub enum LayerFormat {
    /// Both attributes absent: the deprecated per-tile-element style.
    TileElements,
    /// `encoding="csv"`, no compression.
    Csv,
    /// `encoding="base64"`, optionally compressed.
    Base64(Option<Compression>),
}

/// The raw payload handed to the decoder: inline text for csv and base64,
/// or the pre-extracted per-tile gid values for the legacy style.
pub enum PayloadSource {
    Text(String),
    Gids(Vec<u32>),
}

/// Which `LayerFormat` a pair of attribute values denotes, or `None` for an
/// unrecognized or invalid combination. Any compression combined with csv or
/// with an absent encoding is invalid; both attributes absent is the valid
/// but deprecated legacy combination.
pub open spec fn classify_spec(e: Option<Seq<char>>, c: Option<Seq<char>>) -> Option<LayerFormat> {
    match e {
        Option::None => match c {
            Option::None => Option::Some(LayerFormat::TileElements),
            Option::Some(_) => Option::None,
        },
        Option::Some(es) => if es == "csv"@ {
            if c is None {
                Option::Some(LayerFormat::Csv)
            } else {
                Option::None
            }
        } else if es == "base64"@ {
            match c {
                Option::None => Option::Some(LayerFormat::Base64(Option::None)),
                Option::Some(cs) => if cs == "zlib"@ {
                    Option::Some(LayerFormat::Base64(Option::Some(Compression::Zlib)))
                } else if cs == "gzip"@ {
                    Option::Some(LayerFormat::Base64(Option::Some(Compression::Gzip)))
                } else if cs == "zstd"@ {
                    Option::Some(LayerFormat::Base64(Option::Some(Compression::Zstd)))
                } else {
                    Option::None
                },
            }
        } else {
            Option::None
        },
    }
}

/// csv never takes a compression: the pair is always invalid.
pub proof fn lemma_csv_takes_no_compression(c: Seq<char>)
    ensures
        classify_spec(Option::Some("csv"@), Option::Some(c)) is None,
{
}

/// Both attributes absent is a recognized combination: the legacy
/// per-tile-element style.
pub proof fn lemma_legacy_pair_recognized()
    ensures
        classify_spec(Option::None, Option::None) == Option::Some(LayerFormat::TileElements),
{
}

fn clone_opt_string(o: &Option<String>) -> (r: Option<String>)
    ensures
        r.deep_view() == o.deep_view(),
{
    match o {
        Option::None => Option::None,
        Option::Some(s) => Option::Some(s.clone()),
    }
}

/// Classifies the `encoding`/`compression` attribute pair, or reports the
/// invalid combination.
pub fn classify(encoding: &Option<String>, compression: &Option<String>) -> (r: Result<
    LayerFormat,
    Error,
>)
    ensures
        match classify_spec(encoding.deep_view(), compression.deep_view()) {
            Option::Some(f) => r matches Ok(g) && g == f,
            Option::None => r matches Err(e) && e matches Error::InvalidEncodingFormat {
                encoding: e2,
                compression: c2,
            } && e2.deep_view() == encoding.deep_view() && c2.deep_view()
                == compression.deep_view(),
        },
{
    match encoding {
        Option::None => match compression {
            Option::None => Ok(LayerFormat::TileElements),
            Option::Some(_) => Err(
                Error::InvalidEncodingFormat {
                    encoding: clone_opt_string(encoding),
                    compression: clone_opt_string(compression),
                },
            ),
        },
        Option::Some(es) => {
            if str_eq(es.as_str(), "csv") {
                match compression {
                    Option::None => Ok(LayerFormat::Csv),
                    Option::Some(_) => Err(
                        Error::InvalidEncodingFormat {
                            encoding: clone_opt_string(encoding),
                            compression: clone_opt_string(compression),
                        },
                    ),
                }
            } else if str_eq(es.as_str(), "base64") {
                match compression {
                    Option::None => Ok(LayerFormat::Base64(Option::None)),
                    Option::Some(cs) => {
                        if str_eq(cs.as_str(), "zlib") {
                            Ok(LayerFormat::Base64(Option::Some(Compression::Zlib)))
                        } else if str_eq(cs.as_str(), "gzip") {
                            Ok(LayerFormat::Base64(Option::Some(Compression::Gzip)))
                        } else if str_eq(cs.as_str(), "zstd") {
                            Ok(LayerFormat::Base64(Option::Some(Compression::Zstd)))
                        } else {
                            Err(
                                Error::InvalidEncodingFormat {
                                    encoding: clone_opt_string(encoding),
                                    compression: clone_opt_string(compression),
                                },
                            )
                        }
                    },
                }
            } else {
                Err(
                    Error::InvalidEncodingFormat {
                        encoding: clone_opt_string(encoding),
                        compression: clone_opt_string(compression),
                    },
                )
            }
        },
    }
}

/// The legacy combination is surfaced to the caller as the deprecated
/// variant of the invalid-format error, with both attributes absent, so
/// that the caller can warn rather than fail.
pub fn deprecation_notice(format: &LayerFormat) -> (r: Option<Error>)
    ensures
        match format {
            LayerFormat::TileElements => r matches Some(e) && e matches Error::InvalidEncodingFormat {
                encoding: e2,
                compression: c2,
            } && e2 is None && c2 is None,
            _ => r is None,
        },
{
    match format {
        LayerFormat::TileElements => Some(
            Error::InvalidEncodingFormat { encoding: Option::None, compression: Option::None },
        ),
        _ => Option::None,
    }
}

// ------------------------------------------------------------------
// csv
// ------------------------------------------------------------------
/// A payload of nothing but whitespace denotes the empty tile sequence.
pub open spec fn blank(s: Seq<char>) -> bool {
    forall|i: int| 0 <= i < s.len() ==> is_space_char(#[trigger] s[i])
}

pub open spec fn no_comma(s: Seq<char>) -> bool {
    forall|i: int| 0 <= i < s.len() ==> #[trigger] s[i] != ','
}

/// The fields of `s` between comma delimiters, in order. A string without
/// commas is one field; every comma separates two fields, so `n` commas
/// give `n + 1` fields.
pub open spec fn split_commas(s: Seq<char>) -> Seq<Seq<char>>
    decreases s.len(),
{
    if s.len() == 0 {
        seq![Seq::<char>::empty()]
    } else if s.first() == ',' {
        seq![Seq::<char>::empty()] + split_commas(s.drop_first())
    } else {
        let rest = split_commas(s.drop_first());
        seq![seq![s.first()] + rest.first()] + rest.drop_first()
    }
}

pub proof fn lemma_split_commas_len(s: Seq<char>)
    ensures
        split_commas(s).len() >= 1,
    decreases s.len(),
{
    if s.len() != 0 {
        lemma_split_commas_len(s.drop_first());
    }
}

/// A comma-free string is one single field.
pub proof fn lemma_split_no_comma(s: Seq<char>)
    requires
        no_comma(s),
    ensures
        split_commas(s) == seq![s],
    decreases s.len(),
{
    if s.len() == 0 {
        assert(split_commas(s) =~~= seq![s]);
    } else {
        assert(s[0] != ',');
        lemma_split_no_comma(s.drop_first());
        lemma_split_commas_len(s.drop_first());
        assert(seq![s.first()] + s.drop_first() =~= s);
        assert(split_commas(s) =~~= seq![s]);
    }
}

/// Splitting at the first comma: a comma-free prefix is the first field and
/// the rest splits on its own.
pub proof fn lemma_split_comma_append(a: Seq<char>, b: Seq<char>)
    requires
        no_comma(a),
    ensures
        split_commas(a + seq![','] + b) == seq![a] + split_commas(b),
    decreases a.len(),
{
    let s = a + seq![','] + b;
    if a.len() == 0 {
        assert(s.first() == ',');
        assert(s.drop_first() =~= b);
        assert(seq![Seq::<char>::empty()] + split_commas(b) =~~= seq![a] + split_commas(b));
    } else {
        assert(s.first() == a[0]);
        assert(a[0] != ',');
        assert(s.drop_first() =~= a.drop_first() + seq![','] + b);
        assert(no_comma(a.drop_first()));
        lemma_split_comma_append(a.drop_first(), b);
        let rest = split_commas(s.drop_first());
        assert(rest == seq![a.drop_first()] + split_commas(b));
        lemma_split_commas_len(b);
        assert(rest.first() == a.drop_first());
        assert(seq![s.first()] + rest.first() =~= a);
        assert(rest.drop_first() =~= split_commas(b));
        assert(split_commas(s) =~~= seq![a] + split_commas(b));
    }
}

/// The tile sequence a csv payload denotes: a blank payload is the empty
/// sequence, and otherwise every comma-separated field must be a number.
pub open spec fn parse_csv_spec(s: Seq<char>) -> Option<Seq<u32>> {
    if blank(s) {
        Option::Some(Seq::<u32>::empty())
    } else {
        let toks = split_commas(s);
        if forall|i: int| 0 <= i < toks.len() ==> (#[trigger] parse_csv_token(toks[i])) is Some {
            Option::Some(Seq::new(toks.len(), |i: int| parse_csv_token(toks[i]).unwrap()))
        } else {
            Option::None
        }
    }
}

/// The csv rendering of a tile sequence: decimal numbers joined by commas.
pub open spec fn csv_of(tiles: Seq<u32>) -> Seq<char>
    decreases tiles.len(),
{
    if tiles.len() == 0 {
        Seq::<char>::empty()
    } else if tiles.len() == 1 {
        dec_digits(tiles[0] as nat)
    } else {
        dec_digits(tiles.first() as nat) + seq![','] + csv_of(tiles.drop_first())
    }
}

proof fn lemma_digits_not_special(s: Seq<char>)
    requires
        all_dec_digits(s),
    ensures
        no_comma(s),
        s.len() > 0 ==> !is_space_char(s[0]),
{
    assert forall|i: int| 0 <= i < s.len() implies #[trigger] s[i] != ',' by {
        assert(is_dec_digit(s[i]));
    }
}

proof fn lemma_trim_digits(s: Seq<char>)
    requires
        s.len() > 0,
        all_dec_digits(s),
    ensures
        trim_spec(s) == s,
{
    assert(is_dec_digit(s.first()));
    assert(!is_space_char(s.first()));
    assert(trim_start_spec(s) == s);
    assert(is_dec_digit(s.last()));
    assert(!is_space_char(s.last()));
    assert(trim_end_spec(s) == s);
}

proof fn lemma_split_csv_of(tiles: Seq<u32>)
    requires
        tiles.len() >= 1,
    ensures
        csv_of(tiles).len() >= 1,
        is_dec_digit(csv_of(tiles)[0]),
        split_commas(csv_of(tiles)) == Seq::new(tiles.len(), |i: int| dec_digits(tiles[i] as nat)),
    decreases tiles.len(),
{
    let dd = dec_digits(tiles[0] as nat);
    lemma_dec_digits(tiles[0] as nat);
    lemma_digits_not_special(dd);
    if tiles.len() == 1 {
        lemma_split_no_comma(dd);
        assert(seq![dd] =~= Seq::new(tiles.len(), |i: int| dec_digits(tiles[i] as nat)));
    } else {
        let rest = csv_of(tiles.drop_first());
        assert(csv_of(tiles) == dd + seq![','] + rest);
        lemma_split_csv_of(tiles.drop_first());
        lemma_split_comma_append(dd, rest);
        assert((dd + seq![','] + rest)[0] == dd[0]);
        let m = Seq::new(tiles.drop_first().len(), |i: int| dec_digits(
            tiles.drop_first()[i] as nat,
        ));
        assert(split_commas(rest) == m);
        assert(seq![dd] + m =~= Seq::new(tiles.len(), |i: int| dec_digits(tiles[i] as nat)));
    }
}

/// Round trip: rendering any tile sequence as csv and parsing it back
/// returns the identical sequence.
pub proof fn lemma_csv_round_trip(tiles: Seq<u32>)
    ensures
        parse_csv_spec(csv_of(tiles)) == Option::Some(tiles),
{
    if tiles.len() == 0 {
        assert(csv_of(tiles) =~= Seq::<char>::empty());
        assert(blank(Seq::<char>::empty()));
        assert(tiles =~= Seq::<u32>::empty());
    } else {
        let s = csv_of(tiles);
        lemma_split_csv_of(tiles);
        assert(!is_space_char(s[0]));
        assert(!blank(s));
        let toks = split_commas(s);
        assert forall|i: int| 0 <= i < toks.len() implies (#[trigger] parse_csv_token(toks[i]))
            == Option::Some(tiles[i]) by {
            assert(toks[i] == dec_digits(tiles[i] as nat));
            lemma_dec_digits(tiles[i] as nat);
            lemma_trim_digits(toks[i]);
            assert(dec_val(toks[i]) == tiles[i] <= u32::MAX);
        }
        assert(Seq::new(toks.len(), |i: int| parse_csv_token(toks[i]).unwrap()) =~= tiles);
    }
}

/// Decodes a csv payload into the tile sequence it denotes. A field that is
/// not a 32-bit number is an invalid tile.
pub fn decode_csv_tiles(payload: &str) -> (r: Result<Vec<u32>, Error>)
    ensures
        match parse_csv_spec(payload@) {
            Option::Some(tiles) => r matches Ok(v) && v@ == tiles,
            Option::None => r matches Err(e) && e is InvalidTileFound,
        },
{
    let v = chars_of(payload);
    let n = v.len();
    let mut i: usize = 0;
    while i < n && is_space_char_exec(v[i])
        invariant
            n == v@.len(),
            v@ == payload@,
            i <= n,
            forall|j: int| 0 <= j < i ==> is_space_char(#[trigger] v@[j]),
        decreases n - i,
    {
        i = i + 1;
    }
    if i == n {
        proof {
            assert(blank(payload@));
        }
        return Ok(Vec::new());
    }
    proof {
        assert(!is_space_char(payload@[i as int]));
        assert(!blank(payload@));
    }
    let ghost toks = split_commas(v@);
    proof {
        assert(v@.subrange(0, n as int) =~= v@);
        assert(toks.skip(0) =~= toks);
    }
    let mut acc: Vec<u32> = Vec::new();
    let mut start: usize = 0;
    loop
        invariant
            n == v@.len(),
            v@ == payload@,
            !blank(payload@),
            toks == split_commas(v@),
            start <= n,
            acc@.len() <= toks.len(),
            toks.skip(acc@.len() as int) == split_commas(v@.subrange(start as int, n as int)),
            forall|t: int| 0 <= t < acc@.len() ==> #[trigger] parse_csv_token(toks[t])
                == Option::Some(acc@[t]),
        decreases n - start,
    {
        let ghost k = acc@.len() as int;
        let mut j: usize = start;
        while j < n && v[j] != ','
            invariant
                n == v@.len(),
                start <= j <= n,
                forall|t: int| start <= t < j ==> #[trigger] v@[t] != ',',
            decreases n - j,
        {
            j = j + 1;
        }
        let ghost token = v@.subrange(start as int, j as int);
        proof {
            assert forall|t: int| 0 <= t < token.len() implies #[trigger] token[t] != ',' by {
                assert(token[t] == v@[start + t]);
            }
            if j < n {
                assert(v@[j as int] == ',');
                let tail = v@.subrange(j as int + 1, n as int);
                assert(v@.subrange(start as int, n as int) =~= token + seq![','] + tail);
                lemma_split_comma_append(token, tail);
            } else {
                assert(v@.subrange(start as int, n as int) =~= token);
                lemma_split_no_comma(token);
            }
            lemma_split_commas_len(v@.subrange(start as int, n as int));
            assert(toks.skip(k).len() >= 1);
            assert(k < toks.len());
            assert(toks.skip(k)[0] == token);
            assert(toks.skip(k)[0] == toks[k]);
            assert(toks[k] == token);
        }
        let parsed = parse_token_span(&v, start, j);
        match parsed {
            Option::None => {
                proof {
                    assert(parse_csv_token(toks[k]) is None);
                    assert(parse_csv_spec(payload@) is None);
                }
                return Err(Error::InvalidTileFound);
            },
            Option::Some(x) => {
                acc.push(x);
            },
        }
        if j == n {
            proof {
                assert(toks.skip(k) =~= seq![token]);
                assert(toks.len() == k + 1);
                assert(acc@.len() == toks.len());
                assert(forall|t: int|
                    0 <= t < toks.len() ==> (#[trigger] parse_csv_token(toks[t])) is Some);
                assert(Seq::new(toks.len(), |t: int| parse_csv_token(toks[t]).unwrap()) =~= acc@);
            }
            return Ok(acc);
        }
        proof {
            assert(toks.skip(k).drop_first() =~= toks.skip(k + 1));
            assert(toks.skip(k) == seq![token] + split_commas(v@.subrange(j as int + 1, n as int)));
            let tail2 = v@.subrange(j as int + 1, n as int);
            assert(toks.skip(k + 1) =~= split_commas(tail2));
        }
        start = j + 1;
    }
}

proof fn lemma_csv_of_push(t: Seq<u32>, x: u32)
    ensures
        csv_of(t.push(x)) == if t.len() == 0 {
            dec_digits(x as nat)
        } else {
            csv_of(t) + seq![','] + dec_digits(x as nat)
        },
    decreases t.len(),
{
    let p = t.push(x);
    if t.len() == 0 {
        assert(p.len() == 1);
        assert(p[0] == x);
    } else {
        assert(p.first() == t.first());
        assert(p.drop_first() =~= t.drop_first().push(x));
        lemma_csv_of_push(t.drop_first(), x);
        if t.len() == 1 {
            assert(t.drop_first().len() == 0);
            assert(csv_of(p) == dec_digits(t.first() as nat) + seq![','] + dec_digits(x as nat));
            assert(csv_of(t) == dec_digits(t[0] as nat));
            assert(csv_of(p) =~= csv_of(t) + seq![','] + dec_digits(x as nat));
        } else {
            assert(csv_of(p) == dec_digits(p.first() as nat) + seq![','] + csv_of(p.drop_first()));
            assert(csv_of(p.drop_first()) == csv_of(t.drop_first()) + seq![','] + dec_digits(
                x as nat,
            ));
            assert(csv_of(t) == dec_digits(t.first() as nat) + seq![','] + csv_of(t.drop_first()));
            assert(csv_of(p) =~= csv_of(t) + seq![','] + dec_digits(x as nat));
        }
    }
}

/// Renders a tile sequence as a csv payload. Decoding the result returns
/// the identical sequence (round trip).
pub fn encode_tiles_csv(tiles: &Vec<u32>) -> (s: String)
    ensures
        s@ == csv_of(tiles@),
        parse_csv_spec(s@) == Option::Some(tiles@),
{
    let mut out: Vec<char> = Vec::new();
    let mut i: usize = 0;
    while i < tiles.len()
        invariant
            i <= tiles@.len(),
            out@ == csv_of(tiles@.take(i as int)),
        decreases tiles@.len() - i,
    {
        proof {
            assert(tiles@.take(i as int).push(tiles@[i as int]) =~= tiles@.take(i as int + 1));
            lemma_csv_of_push(tiles@.take(i as int), tiles@[i as int]);
        }
        if i > 0 {
            out.push(',');
        }
        push_dec_digits(tiles[i], &mut out);
        i = i + 1;
    }
    proof {
        assert(tiles@.take(tiles@.len() as int) =~= tiles@);
        lemma_csv_round_trip(tiles@);
    }
    string_of_chars(&out)
}

// ------------------------------------------------------------------
// base64 and compression
// ------------------------------------------------------------------
/// What base64 decoding (standard alphabet, padded) yields on the given
/// text, or `None` where the text is not valid base64.
pub uninterp spec fn base64_decoded(s: Seq<char>) -> Option<Seq<u8>>;

/// What zlib inflation yields on the given bytes, or `None` where the
/// stream is corrupt.
pub uninterp spec fn zlib_inflated(b: Seq<u8>) -> Option<Seq<u8>>;

/// What gzip inflation yields on the given bytes, or `None` where the
/// stream is corrupt.
pub uninterp spec fn gzip_inflated(b: Seq<u8>) -> Option<Seq<u8>>;

/// What zstd decompression yields on the given bytes, or `None` where the
/// stream is corrupt.
pub uninterp spec fn zstd_inflated(b: Seq<u8>) -> Option<Seq<u8>>;

/// Relies on `base64::Engine::decode` with the standard engine: the result
/// is a function of the input text alone, and decoding fails exactly where
/// the text is not valid base64.
#[verifier::external_body]
fn b64_decode_raw(payload: &str) -> (r: Result<Vec<u8>, base64::DecodeError>)
    ensures
        match r {
            Ok(v) => base64_decoded(payload@) == Option::Some(v@),
            Err(_) => base64_decoded(payload@) is None,
        },
{
    base64::Engine::decode(&base64::engine::general_purpose::STANDARD, payload)
}

/// Relies on `base64::Engine::encode` with the standard engine: its output
/// is valid base64 and decodes back to the input bytes.
#[verifier::external_body]
fn b64_encode_raw(bytes: &[u8]) -> (r: String)
    ensures
        base64_decoded(r@) == Option::Some(bytes@),
{
    base64::Engine::encode(&base64::engine::general_purpose::STANDARD, bytes)
}

/// Relies on `flate2::read::ZlibDecoder`: inflating a byte stream is a
/// function of the bytes alone, and fails exactly on corrupt streams.
#[verifier::external_body]
fn zlib_decompress(bytes: &[u8]) -> (r: Result<Vec<u8>, std::io::Error>)
    ensures
        match r {
            Ok(v) => zlib_inflated(bytes@) == Option::Some(v@),
            Err(_) => zlib_inflated(bytes@) is None,
        },
{
    let mut out: Vec<u8> = Vec::new();
    let mut d = flate2::read::ZlibDecoder::new(bytes);
    match std::io::Read::read_to_end(&mut d, &mut out) {
        Ok(_) => Ok(out),
        Err(e) => Err(e),
    }
}

/// Relies on `flate2::write::ZlibEncoder` writing into a `Vec`: compressing
/// into memory with the default level always succeeds (the only I/O is the
/// infallible `Vec` writer), and what it produces inflates back to the
/// input bytes (lossless round trip).
#[verifier::external_body]
fn zlib_compress(bytes: &[u8]) -> (r: Result<Vec<u8>, std::io::Error>)
    ensures
        r is Ok,
        r matches Ok(v) ==> zlib_inflated(v@) == Option::Some(bytes@),
{
    let mut e = flate2::write::ZlibEncoder::new(Vec::new(), flate2::Compression::default());
    std::io::Write::write_all(&mut e, bytes)?;
    e.finish()
}

/// Relies on `flate2::read::GzDecoder`: inflating a byte stream is a
/// function of the bytes alone, and fails exactly on corrupt streams.
#[verifier::external_body]
fn gzip_decompress(bytes: &[u8]) -> (r: Result<Vec<u8>, std::io::Error>)
    ensures
        match r {
            Ok(v) => gzip_inflated(bytes@) == Option::Some(v@),
            Err(_) => gzip_inflated(bytes@) is None,
        },
{
    let mut out: Vec<u8> = Vec::new();
    let mut d = flate2::read::GzDecoder::new(bytes);
    match std::io::Read::read_to_end(&mut d, &mut out) {
        Ok(_) => Ok(out),
        Err(e) => Err(e),
    }
}

/// Relies on `flate2::write::GzEncoder` writing into a `Vec`: compressing
/// into memory with the default level always succeeds (the only I/O is the
/// infallible `Vec` writer), and what it produces inflates back to the
/// input bytes (lossless round trip).
#[verifier::external_body]
fn gzip_compress(bytes: &[u8]) -> (r: Result<Vec<u8>, std::io::Error>)
    ensures
        r is Ok,
        r matches Ok(v) ==> gzip_inflated(v@) == Option::Some(bytes@),
{
    let mut e = flate2::write::GzEncoder::new(Vec::new(), flate2::Compression::default());
    std::io::Write::write_all(&mut e, bytes)?;
    e.finish()
}

/// Relies on `zstd::decode_all`: decompression is a function of the bytes
/// alone, and fails exactly on corrupt streams.
#[verifier::external_body]
fn zstd_decompress(bytes: &[u8]) -> (r: Result<Vec<u8>, std::io::Error>)
    ensures
        match r {
            Ok(v) => zstd_inflated(bytes@) == Option::Some(v@),
            Err(_) => zstd_inflated(bytes@) is None,
        },
{
    zstd::decode_all(bytes)
}

/// Relies on `zstd::encode_all` reading from a slice into a `Vec`:
/// compressing into memory at the default level always succeeds, and what
/// it produces decompresses back to the input bytes (lossless round trip).
#[verifier::external_body]
fn zstd_compress(bytes: &[u8]) -> (r: Result<Vec<u8>, std::io::Error>)
    ensures
        r is Ok,
        r matches Ok(v) ==> zstd_inflated(v@) == Option::Some(bytes@),
{
    zstd::encode_all(bytes, 0)
}

/// What decompressing with the given scheme yields; no scheme passes the
/// bytes through.
pub open spec fn inflated(c: Option<Compression>, b: Seq<u8>) -> Option<Seq<u8>> {
    match c {
        Option::None => Option::Some(b),
        Option::Some(Compression::Zlib) => zlib_inflated(b),
        Option::Some(Compression::Gzip) => gzip_inflated(b),
        Option::Some(Compression::Zstd) => zstd_inflated(b),
    }
}

/// The words of a byte sequence read as little-endian 32-bit integers.
pub open spec fn le_words_of(b: Seq<u8>) -> Seq<u32> {
    Seq::new(b.len() / 4, |i: int| spec_u32_from_le_bytes(b.subrange(4 * i, 4 * i + 4)))
}

/// A tile sequence packed as little-endian 32-bit integers.
pub open spec fn le_bytes_of(t: Seq<u32>) -> Seq<u8>
    decreases t.len(),
{
    if t.len() == 0 {
        Seq::<u8>::empty()
    } else {
        le_bytes_of(t.drop_last()) + spec_u32_to_le_bytes(t.last())
    }
}

/// Packing and re-reading little-endian words is the identity.
pub proof fn lemma_le_words_of_le_bytes(t: Seq<u32>)
    ensures
        le_bytes_of(t).len() == 4 * t.len(),
        le_words_of(le_bytes_of(t)) == t,
    decreases t.len(),
{
    lemma_auto_spec_u32_to_from_le_bytes();
    if t.len() == 0 {
        assert(le_words_of(le_bytes_of(t)) =~= t);
    } else {
        lemma_le_words_of_le_bytes(t.drop_last());
        let prev = le_bytes_of(t.drop_last());
        let w = spec_u32_to_le_bytes(t.last());
        let b = prev + w;
        assert(le_bytes_of(t) == b);
        assert(b.len() == 4 * t.len());
        assert forall|i: int| 0 <= i < t.len() implies le_words_of(b)[i] == t[i] by {
            if i < t.len() - 1 {
                assert(b.subrange(4 * i, 4 * i + 4) =~= prev.subrange(4 * i, 4 * i + 4));
                assert(le_words_of(prev)[i] == t.drop_last()[i]);
            } else {
                assert(b.subrange(4 * i, 4 * i + 4) =~= w);
            }
        }
        assert(le_words_of(b) =~= t);
    }
}

/// The whole sequence of little-endian words of a byte buffer; the byte
/// length must be an exact multiple of four.
pub fn le_words(bytes: &Vec<u8>) -> (r: Result<Vec<u32>, Error>)
    ensures
        if bytes@.len() % 4 == 0 {
            r matches Ok(v) && v@ == le_words_of(bytes@)
        } else {
            r matches Err(e) && e is InvalidTileFound
        },
{
    if bytes.len() % 4 != 0 {
        return Err(Error::InvalidTileFound);
    }
    let n: usize = bytes.len() / 4;
    proof {
        lemma_fundamental_div_mod(bytes@.len() as int, 4);
    }
    let mut out: Vec<u32> = Vec::new();
    let mut i: usize = 0;
    while i < n
        invariant
            n == bytes@.len() / 4,
            4 * n == bytes@.len(),
            bytes@.len() <= usize::MAX,
            i <= n,
            out@ == le_words_of(bytes@).take(i as int),
        decreases n - i,
    {
        let w = u32_from_le_bytes(slice_subrange(bytes.as_slice(), 4 * i, 4 * i + 4));
        out.push(w);
        i = i + 1;
        proof {
            assert(le_words_of(bytes@).take(i as int) =~= out@);
        }
    }
    proof {
        assert(le_words_of(bytes@).take(n as int) =~= le_words_of(bytes@));
    }
    Ok(out)
}

/// Packs a tile sequence as little-endian 32-bit integers.
pub fn tiles_to_le_bytes(tiles: &Vec<u32>) -> (b: Vec<u8>)
    ensures
        b@ == le_bytes_of(tiles@),
        b@.len() == 4 * tiles@.len(),
        le_words_of(b@) == tiles@,
{
    let mut out: Vec<u8> = Vec::new();
    let mut i: usize = 0;
    while i < tiles.len()
        invariant
            i <= tiles@.len(),
            out@ == le_bytes_of(tiles@.take(i as int)),
            out@.len() == 4 * i,
        decreases tiles@.len() - i,
    {
        proof {
            assert(tiles@.take(i as int + 1).drop_last() =~= tiles@.take(i as int));
            assert(tiles@.take(i as int + 1).last() == tiles@[i as int]);
            lemma_auto_spec_u32_to_from_le_bytes();
        }
        let mut w = u32_to_le_bytes(tiles[i]);
        out.append(&mut w);
        i = i + 1;
    }
    proof {
        assert(tiles@.take(tiles@.len() as int) =~= tiles@);
        lemma_le_words_of_le_bytes(tiles@);
    }
    out
}

/// The tile sequence a base64 payload denotes under the given compression,
/// or `None` where any stage fails.
pub open spec fn base64_pipeline(payload: Seq<char>, c: Option<Compression>) -> Option<Seq<u32>> {
    match base64_decoded(payload) {
        Option::None => Option::None,
        Option::Some(raw) => match inflated(c, raw) {
            Option::None => Option::None,
            Option::Some(b) => if b.len() % 4 == 0 {
                Option::Some(le_words_of(b))
            } else {
                Option::None
            },
        },
    }
}

/// Decodes a base64 payload, decompressing with the given scheme, into the
/// tile sequence it denotes.
pub fn decode_base64_tiles(payload: &str, compression: Option<Compression>) -> (r: Result<
    Vec<u32>,
    Error,
>)
    ensures
        match base64_decoded(payload@) {
            Option::None => r matches Err(e) && e is Base64DecodingError,
            Option::Some(raw) => match inflated(compression, raw) {
                Option::None => r matches Err(e) && e is DecompressingError,
                Option::Some(b) => if b.len() % 4 == 0 {
                    r matches Ok(v) && v@ == le_words_of(b)
                } else {
                    r matches Err(e) && e is InvalidTileFound
                },
            },
        },
        r matches Ok(v) ==> base64_pipeline(payload@, compression) == Option::Some(v@),
{
    let raw = match b64_decode_raw(payload) {
        Ok(v) => v,
        Err(e) => {
            return Err(Error::Base64DecodingError(e));
        },
    };
    let bytes = match compression {
        Option::None => raw,
        Option::Some(Compression::Zlib) => match zlib_decompress(raw.as_slice()) {
            Ok(v) => v,
            Err(e) => {
                return Err(Error::DecompressingError(e));
            },
        },
        Option::Some(Compression::Gzip) => match gzip_decompress(raw.as_slice()) {
            Ok(v) => v,
            Err(e) => {
                return Err(Error::DecompressingError(e));
            },
        },
        Option::Some(Compression::Zstd) => match zstd_decompress(raw.as_slice()) {
            Ok(v) => v,
            Err(e) => {
                return Err(Error::DecompressingError(e));
            },
        },
    };
    le_words(&bytes)
}

/// Packs, compresses and base64-encodes a tile sequence. Encoding always
/// succeeds, and decoding the result with the same compression returns the
/// identical sequence (round trip).
pub fn encode_tiles_base64(tiles: &Vec<u32>, compression: Option<Compression>) -> (r: Result<
    String,
    Error,
>)
    ensures
        r matches Ok(s) && base64_pipeline(s@, compression) == Option::Some(tiles@),
{
    let bytes = tiles_to_le_bytes(tiles);
    proof {
        lemma_fundamental_div_mod(bytes@.len() as int, 4);
    }
    let packed: Vec<u8> = match compression {
        Option::None => bytes,
        Option::Some(Compression::Zlib) => match zlib_compress(bytes.as_slice()) {
            Ok(v) => v,
            Err(e) => {
                return Err(Error::DecompressingError(e));
            },
        },
        Option::Some(Compression::Gzip) => match gzip_compress(bytes.as_slice()) {
            Ok(v) => v,
            Err(e) => {
                return Err(Error::DecompressingError(e));
            },
        },
        Option::Some(Compression::Zstd) => match zstd_compress(bytes.as_slice()) {
            Ok(v) => v,
            Err(e) => {
                return Err(Error::DecompressingError(e));
            },
        },
    };
    let s = b64_encode_raw(packed.as_slice());
    Ok(s)
}

/// Decodes one layer's payload: classifies the attribute pair, decodes the
/// payload, and checks the tile count against the declared `width * height`.
pub fn decode_layer_data(
    encoding: &Option<String>,
    compression: &Option<String>,
    payload: &PayloadSource,
    width: u32,
    height: u32,
) -> (r: Result<Vec<u32>, Error>)
    requires
        classify_spec(encoding.deep_view(), compression.deep_view()) == Option::Some(
            LayerFormat::TileElements,
        ) ==> payload is Gids,
        (classify_spec(encoding.deep_view(), compression.deep_view()) matches Option::Some(f)
            && !(f is TileElements)) ==> payload is Text,
    ensures
        match classify_spec(encoding.deep_view(), compression.deep_view()) {
            Option::None => r matches Err(e) && e matches Error::InvalidEncodingFormat {
                encoding: e2,
                compression: c2,
            } && e2.deep_view() == encoding.deep_view() && c2.deep_view()
                == compression.deep_view(),
            Option::Some(LayerFormat::TileElements) => payload matches PayloadSource::Gids(g) && (
            if g@.len() == (width as int) * (height as int) {
                r matches Ok(v) && v@ == g@
            } else {
                r matches Err(e) && e is InvalidTileFound
            }),
            Option::Some(LayerFormat::Csv) => payload matches PayloadSource::Text(t) && (
            match parse_csv_spec(t@) {
                Option::None => r matches Err(e) && e is InvalidTileFound,
                Option::Some(ts) => if ts.len() == (width as int) * (height as int) {
                    r matches Ok(v) && v@ == ts
                } else {
                    r matches Err(e) && e is InvalidTileFound
                },
            }),
            Option::Some(LayerFormat::Base64(c)) => payload matches PayloadSource::Text(t) && (
            match base64_pipeline(t@, c) {
                Option::Some(ts) => if ts.len() == (width as int) * (height as int) {
                    r matches Ok(v) && v@ == ts
                } else {
                    r matches Err(e) && e is InvalidTileFound
                },
                Option::None => r matches Err(e) && (e is Base64DecodingError
                    || e is DecompressingError || e is InvalidTileFound),
            }),
        },
{
    let format = match classify(encoding, compression) {
        Ok(f) => f,
        Err(e) => {
            return Err(e);
        },
    };
    let tiles: Vec<u32> = match format {
        LayerFormat::TileElements => match payload {
            PayloadSource::Gids(g) => g.clone(),
            PayloadSource::Text(_) => {
                return Err(Error::InvalidTileFound);
            },
        },
        LayerFormat::Csv => match payload {
            PayloadSource::Text(t) => match decode_csv_tiles(t.as_str()) {
                Ok(v) => v,
                Err(e) => {
                    return Err(e);
                },
            },
            PayloadSource::Gids(_) => {
                return Err(Error::InvalidTileFound);
            },
        },
        LayerFormat::Base64(c) => match payload {
            PayloadSource::Text(t) => match decode_base64_tiles(t.as_str(), c) {
                Ok(v) => v,
                Err(e) => {
                    return Err(e);
                },
            },
            PayloadSource::Gids(_) => {
                return Err(Error::InvalidTileFound);
            },
        },
    };
    proof {
        let w = width as int;
        let h = height as int;
        assert(w * h <= 0xffffffff * 0xffffffff) by (nonlinear_arith)
            requires
                0 <= w <= 0xffffffff,
                0 <= h <= 0xffffffff,
        ;
    }
    let expected: u64 = (width as u64) * (height as u64);
    if (tiles.len() as u64) != expected {
        return Err(Error::InvalidTileFound);
    }
    Ok(tiles)
}

} // verus!
