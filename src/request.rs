use vstd::prelude::*;
use vstd::slice::{slice_subrange, slice_to_vec};
use vstd::utf8::{decode_utf8, encode_utf8, valid_utf8};
use crate::constant::{APPLICATION_X_WWW_FORM_URLENCODED, MULTIPART_FORM_DATA, TEXT_PLAIN};
use crate::error::{Fail, FailKind};
use crate::fields::{FieldMap, chars_equal};
use crate::server::append_bytes;
use crate::text::{
    lines, lines_of, utf8_string, words, words_of, char_index, chars_of, find_char, lemma_char_index, lossy_of, lossy_string, lower, lower_of,
    split_char, split_chars, starts_with, starts_with_chars, string_of, trim, trim_chars, views_of,
};
use crate::utils::{split, split_spec};

verus! {

/// Request methods; any other token is `Unknown`.
#[derive(Clone, Copy, Debug, PartialEq, Eq, Structural)]
pub enum HttpMethod {
    Unknown,
    Options,
    Get,
    Post,
}

/// Protocol versions; any other token is `Unknown`.
#[derive(Clone, Copy, Debug, PartialEq, Eq, Structural)]
pub enum HttpVersion {
    Unknown,
    V1_1,
    V2_0,
}

pub open spec fn method_of(token: Seq<char>) -> HttpMethod {
    if token == "OPTIONS"@ {
        HttpMethod::Options
    } else if token == "GET"@ {
        HttpMethod::Get
    } else if token == "POST"@ {
        HttpMethod::Post
    } else {
        HttpMethod::Unknown
    }
}

pub open spec fn version_of(token: Seq<char>) -> HttpVersion {
    if token == "HTTP/1.1"@ {
        HttpVersion::V1_1
    } else if token == "HTTP/2.0"@ {
        HttpVersion::V2_0
    } else {
        HttpVersion::Unknown
    }
}

fn is_token(t: &[char], literal: &str) -> (r: bool)
    ensures
        r == (t@ == literal@),
{
    let l = chars_of(literal);
    chars_equal(t, l.as_slice())
}

impl HttpMethod {
    /// The method a request-line token names.
    pub fn parse(token: &[char]) -> (r: HttpMethod)
        ensures
            r == method_of(token@),
    {
        if is_token(token, "OPTIONS") {
            HttpMethod::Options
        } else if is_token(token, "GET") {
            HttpMethod::Get
        } else if is_token(token, "POST") {
            HttpMethod::Post
        } else {
            HttpMethod::Unknown
        }
    }
}

impl HttpVersion {
    /// The version a request-line token names.
    pub fn parse(token: &[char]) -> (r: HttpVersion)
        ensures
            r == version_of(token@),
    {
        if is_token(token, "HTTP/1.1") {
            HttpVersion::V1_1
        } else if is_token(token, "HTTP/2.0") {
            HttpVersion::V2_0
        } else {
            HttpVersion::Unknown
        }
    }
}

/// The key of a `key=value` pair: the text before the first `=`, trimmed and
/// lower-cased.
pub open spec fn pair_key(p: Seq<char>) -> Seq<char> {
    lower_of(trim(p.take(char_index(p, '=') as int)))
}

/// The value of a pair: the text after the first `=`, trimmed; empty where the
/// pair has no `=`.
pub open spec fn pair_value(p: Seq<char>) -> Seq<char> {
    let k = char_index(p, '=');
    if k < p.len() {
        trim(p.skip(k + 1 as int))
    } else {
        Seq::empty()
    }
}

/// The map that a list of pairs gives: a later pair overwrites an earlier one
/// with the same key.
pub open spec fn params_of(pairs: Seq<Seq<char>>) -> Map<Seq<char>, Seq<char>>
    decreases pairs.len(),
{
    if pairs.len() == 0 {
        Map::empty()
    } else {
        params_of(pairs.drop_last()).insert(pair_key(pairs.last()), pair_value(pairs.last()))
    }
}

/// The parameters of a query string or URL-encoded form: pairs split at `&`.
pub open spec fn parameters(raw: Seq<char>) -> Map<Seq<char>, Seq<char>> {
    params_of(split_char(raw, '&'))
}

fn parse_pair(p: &[char]) -> (r: (Vec<char>, Vec<char>))
    ensures
        r.0@ == pair_key(p@),
        r.1@ == pair_value(p@),
{
    let k = find_char(p, '=');
    proof {
        lemma_char_index(p@, '=');
    }
    let head = slice_subrange(p, 0, k);
    assert(head@ =~= p@.take(k as int));
    let trimmed = trim_chars(head);
    let key = lower(trimmed.as_slice());
    let value = if k < p.len() {
        let tail = slice_subrange(p, k + 1, p.len());
        assert(tail@ =~= p@.skip(k + 1));
        trim_chars(tail)
    } else {
        Vec::new()
    };
    assert(k >= p@.len() ==> value@ =~= Seq::<char>::empty());
    (key, value)
}

/// Parses `&`-separated `key=value` pairs.
pub fn parse_parameters(raw: &[char]) -> (r: FieldMap<String>)
    ensures
        r.wf(),
        r@ == parameters(raw@),
{
    let pairs = split_chars(raw, '&');
    let ghost ps = views_of(pairs@);
    let mut params: FieldMap<String> = FieldMap::new();
    let mut i: usize = 0;
    assert(ps.take(0) =~= Seq::<Seq<char>>::empty());
    while i < pairs.len()
        invariant
            ps == views_of(pairs@),
            ps == split_char(raw@, '&'),
            i <= pairs@.len(),
            params.wf(),
            params@ == params_of(ps.take(i as int)),
        decreases pairs@.len() - i,
    {
        let (key, value) = parse_pair(pairs[i].as_slice());
        params.insert(string_of(key.as_slice()), string_of(value.as_slice()));
        assert(ps.take(i + 1).drop_last() =~= ps.take(i as int));
        assert(ps[i as int] == pairs@[i as int]@);
        i += 1;
    }
    assert(ps.take(pairs@.len() as int) =~= ps);
    params
}

/// Parses the pairs of a URL-encoded form; each value is kept as the UTF-8
/// bytes of its text.
pub fn parse_form_fields(raw: &[char]) -> (r: FieldMap<Vec<u8>>)
    ensures
        r.wf(),
        r@ == parameters(raw@).map_values(|v: Seq<char>| vstd::utf8::encode_utf8(v)),
{
    parse_parameters(raw).to_bytes()
}

/// The keys of parsed parameters are exactly the keys of the pairs: each the
/// trimmed, lower-cased text before the pair's first `=`. A key's value is the
/// value of the last pair with that key: its trimmed text after the first `=`,
/// or the empty value where that pair has no `=`.
pub proof fn lemma_parameter_keys(pairs: Seq<Seq<char>>)
    ensures
        forall|k: Seq<char>| #[trigger]
            params_of(pairs).contains_key(k) ==> exists|i: int|
                0 <= i < pairs.len() && k == lower_of(
                    trim(pairs[i].take(char_index(pairs[i], '=') as int)),
                ),
        forall|i: int|
            0 <= i < pairs.len() ==> #[trigger] params_of(pairs).contains_key(pair_key(pairs[i])),
        forall|i: int|
            0 <= i < pairs.len() && (forall|j: int|
                i < j < pairs.len() ==> pair_key(pairs[j]) != pair_key(pairs[i])) ==> params_of(
                pairs,
            )[#[trigger] pair_key(pairs[i])] == pair_value(pairs[i]),
        forall|i: int|
            0 <= i < pairs.len() && (forall|j: int|
                i < j < pairs.len() ==> pair_key(pairs[j]) != pair_key(pairs[i])) && char_index(
                pairs[i],
                '=',
            ) >= pairs[i].len() ==> params_of(pairs)[#[trigger] pair_key(pairs[i])]
                == Seq::<char>::empty(),
    decreases pairs.len(),
{
    if pairs.len() > 0 {
        let init = pairs.drop_last();
        let last = pairs.len() - 1;
        lemma_parameter_keys(init);
        assert(pairs[last] == pairs.last());
        assert forall|k: Seq<char>| #[trigger]
            params_of(pairs).contains_key(k) implies exists|i: int|
                0 <= i < pairs.len() && k == lower_of(
                    trim(pairs[i].take(char_index(pairs[i], '=') as int)),
                ) by {
            if k != pair_key(pairs.last()) {
                assert(params_of(init).contains_key(k));
                let i = choose|i: int|
                    0 <= i < init.len() && k == lower_of(
                        trim(init[i].take(char_index(init[i], '=') as int)),
                    );
                assert(pairs[i] == init[i]);
            }
        }
        assert forall|i: int| 0 <= i < pairs.len() implies #[trigger] params_of(pairs).contains_key(
            pair_key(pairs[i]),
        ) by {
            if i < last {
                assert(pairs[i] == init[i]);
                assert(params_of(init).contains_key(pair_key(init[i])));
            }
        }
        assert forall|i: int|
            0 <= i < pairs.len() && (forall|j: int|
                i < j < pairs.len() ==> pair_key(pairs[j]) != pair_key(pairs[i])) implies params_of(
            pairs,
        )[#[trigger] pair_key(pairs[i])] == pair_value(pairs[i]) by {
            if i < last {
                assert(pairs[i] == init[i]);
                assert(pair_key(pairs[last]) != pair_key(pairs[i]));
                assert forall|j: int| i < j < init.len() implies pair_key(init[j]) != pair_key(
                    init[i],
                ) by {
                    assert(pairs[j] == init[j]);
                }
                assert(params_of(init)[pair_key(init[i])] == pair_value(init[i]));
            }
        }
    }
}

/// `s` ends with `suffix`.
pub open spec fn ends_with_bytes(s: Seq<u8>, suffix: Seq<u8>) -> bool {
    suffix.len() <= s.len() && s.skip(s.len() - suffix.len()) == suffix
}

/// The bytes `\r\n`.
pub open spec fn crlf() -> Seq<u8> {
    seq![13u8, 10u8]
}

/// `--{boundary}\r\n`, which opens each part.
pub open spec fn delimiter(boundary: Seq<char>) -> Seq<u8> {
    seq![45u8, 45u8] + encode_utf8(boundary) + crlf()
}

/// `--{boundary}--\r\n`, which closes the last part.
pub open spec fn closing(boundary: Seq<char>) -> Seq<u8> {
    seq![45u8, 45u8] + encode_utf8(boundary) + seq![45u8, 45u8, 13u8, 10u8]
}

/// A section without the closing marker and the line break before it.
pub open spec fn section_content(section: Seq<u8>, close: Seq<u8>) -> Seq<u8> {
    if ends_with_bytes(section, close) {
        if section.len() - close.len() >= 2 {
            section.take(section.len() - close.len() - 2)
        } else {
            Seq::empty()
        }
    } else {
        section
    }
}

/// The text between the first and the second `=` of an attribute.
pub open spec fn attribute_value(a: Seq<char>) -> Seq<char> {
    let rest = a.skip(char_index(a, '=') + 1 as int);
    rest.take(char_index(rest, '=') as int)
}

/// The value of the first attribute that starts with `name=`.
pub open spec fn name_in(attrs: Seq<Seq<char>>) -> Option<Seq<char>>
    decreases attrs.len(),
{
    if attrs.len() == 0 {
        None
    } else if starts_with(trim(attrs[0]), "name="@) {
        Some(attribute_value(trim(attrs[0])))
    } else {
        name_in(attrs.drop_first())
    }
}

/// The field name of a part, from the first line of its header block: the
/// quoted `name=` value, unquoted, trimmed and lower-cased.
pub open spec fn part_name(line: Seq<u8>) -> Option<Seq<char>> {
    match name_in(split_char(lossy_of(line), ';')) {
        Some(q) => if q.len() >= 2 {
            Some(lower_of(trim(q.subrange(1, q.len() - 1))))
        } else {
            None
        },
        None => None,
    }
}

/// The index of the first empty line, or the number of lines.
pub open spec fn blank_index(lines: Seq<Seq<u8>>) -> nat
    decreases lines.len(),
{
    if lines.len() == 0 {
        0
    } else if lines[0].len() == 0 {
        0
    } else {
        1 + blank_index(lines.drop_first())
    }
}

/// The field that one section of a multipart body gives: its name, and the one
/// line after the blank line that ends its header block.
pub open spec fn part_of(section: Seq<u8>, close: Seq<u8>) -> Result<
    (Seq<char>, Seq<u8>),
    FailKind,
> {
    let lines = split_spec(section_content(section, close), crlf());
    if lines.len() == 0 {
        Err(FailKind::MissingFieldName)
    } else {
        match part_name(lines[0]) {
            None => Err(FailKind::MissingFieldName),
            Some(name) => {
                let b = blank_index(lines);
                if b + 1 < lines.len() {
                    Ok((name, lines[b + 1 as int]))
                } else {
                    Err(FailKind::MalformedPart)
                }
            },
        }
    }
}

/// The fields of the sections in order, or the failure of the first bad one.
pub open spec fn multipart_of(sections: Seq<Seq<u8>>, close: Seq<u8>) -> Result<
    Map<Seq<char>, Seq<u8>>,
    FailKind,
>
    decreases sections.len(),
{
    if sections.len() == 0 {
        Ok(Map::empty())
    } else {
        match multipart_of(sections.drop_last(), close) {
            Err(e) => Err(e),
            Ok(m) => match part_of(sections.last(), close) {
                Err(e) => Err(e),
                Ok((name, value)) => Ok(m.insert(name, value)),
            },
        }
    }
}

/// The fields of a multipart body: the sections after the first delimiter.
pub open spec fn multipart_form(body: Seq<u8>, boundary: Seq<char>) -> Result<
    Map<Seq<char>, Seq<u8>>,
    FailKind,
> {
    multipart_of(split_spec(body, delimiter(boundary)).drop_first(), closing(boundary))
}

fn ends_with_slice(s: &[u8], suffix: &[u8]) -> (r: bool)
    ensures
        r == ends_with_bytes(s@, suffix@),
{
    if suffix.len() > s.len() {
        return false;
    }
    let tail = slice_subrange(s, s.len() - suffix.len(), s.len());
    assert(tail@ =~= s@.skip(s@.len() - suffix@.len()));
    let mut k: usize = 0;
    while k < suffix.len()
        invariant
            tail@.len() == suffix@.len(),
            tail@ == s@.skip(s@.len() - suffix@.len()),
            k <= suffix@.len(),
            forall|m: int| 0 <= m < k ==> tail@[m] == suffix@[m],
        decreases suffix@.len() - k,
    {
        if tail[k] != suffix[k] {
            assert(tail@[k as int] != suffix@[k as int]);
            return false;
        }
        k += 1;
    }
    assert(tail@ =~= suffix@);
    true
}

/// The bytes `--`, the boundary, and `tail`.
fn marker(boundary: &[char], tail: &[u8]) -> (r: Vec<u8>)
    ensures
        r@ == seq![45u8, 45u8] + encode_utf8(boundary@) + tail@,
{
    let mut out: Vec<u8> = Vec::new();
    out.push(45u8);
    out.push(45u8);
    let text = string_of(boundary);
    append_bytes(&mut out, text.as_str().as_bytes());
    append_bytes(&mut out, tail);
    assert(out@ =~= seq![45u8, 45u8] + encode_utf8(boundary@) + tail@);
    out
}

/// The text between the first and the second `=` of an attribute that has a `=`.
fn attribute_value_of(a: &[char]) -> (r: Vec<char>)
    requires
        char_index(a@, '=') < a@.len(),
    ensures
        r@ == attribute_value(a@),
{
    let k = find_char(a, '=');
    let n = a.len();
    let rest = slice_subrange(a, k + 1, n);
    assert(rest@ =~= a@.skip(char_index(a@, '=') + 1 as int));
    let j = find_char(rest, '=');
    proof {
        lemma_char_index(rest@, '=');
    }
    let value = slice_to_vec(slice_subrange(rest, 0, j));
    assert(value@ =~= attribute_value(a@));
    value
}

fn find_name(attrs: &Vec<Vec<char>>) -> (r: Option<Vec<char>>)
    ensures
        r matches Some(v) ==> name_in(views_of(attrs@)) == Some(v@),
        r is None ==> name_in(views_of(attrs@)) is None,
{
    let ghost all = views_of(attrs@);
    let mut i: usize = 0;
    assert(all.skip(0) =~= all);
    while i < attrs.len()
        invariant
            all == views_of(attrs@),
            i <= attrs@.len(),
            name_in(all) == name_in(all.skip(i as int)),
        decreases attrs@.len() - i,
    {
        let a = trim_chars(attrs[i].as_slice());
        let prefix = chars_of("name=");
        assert(all.skip(i as int)[0] == attrs@[i as int]@);
        if starts_with_chars(a.as_slice(), prefix.as_slice()) {
            proof {
                lemma_char_index(a@, '=');
                reveal_strlit("name=");
                assert(a@.take(5)[4] == '=');
                assert(a@[4] == '=');
            }
            return Some(attribute_value_of(a.as_slice()));
        }
        assert(all.skip(i as int).drop_first() =~= all.skip(i + 1));
        i += 1;
    }
    assert(all.skip(i as int) =~= Seq::<Seq<char>>::empty());
    None
}

fn name_of_part(line: &[u8]) -> (r: Option<Vec<char>>)
    ensures
        r matches Some(v) ==> part_name(line@) == Some(v@),
        r is None ==> part_name(line@) is None,
{
    let text = lossy_string(line);
    let chars = chars_of(text.as_str());
    let attrs = split_chars(chars.as_slice(), ';');
    match find_name(&attrs) {
        Some(q) => {
            if q.len() >= 2 {
                let inner = trim_chars(slice_subrange(q.as_slice(), 1, q.len() - 1));
                Some(lower(inner.as_slice()))
            } else {
                None
            }
        },
        None => None,
    }
}

fn find_blank(lines: &Vec<Vec<u8>>) -> (r: usize)
    ensures
        r == blank_index(lines@.map_values(|v: Vec<u8>| v@)),
{
    let ghost all = lines@.map_values(|v: Vec<u8>| v@);
    let mut i: usize = 0;
    assert(all.skip(0) =~= all);
    while i < lines.len()
        invariant
            all == lines@.map_values(|v: Vec<u8>| v@),
            i <= lines@.len(),
            blank_index(all) == i + blank_index(all.skip(i as int)),
        decreases lines@.len() - i,
    {
        assert(all.skip(i as int)[0] == lines@[i as int]@);
        if lines[i].len() == 0 {
            return i;
        }
        assert(all.skip(i as int).drop_first() =~= all.skip(i + 1));
        i += 1;
    }
    i
}

fn parse_part(section: &[u8], close: &[u8]) -> (r: Result<(Vec<char>, Vec<u8>), Fail>)
    ensures
        match part_of(section@, close@) {
            Ok((name, value)) => r matches Ok((n, v)) && n@ == name && v@ == value,
            Err(e) => r == Err::<(Vec<char>, Vec<u8>), Fail>(Fail { kind: e }),
        },
{
    let content = if ends_with_slice(section, close) {
        if section.len() - close.len() >= 2 {
            slice_subrange(section, 0, section.len() - close.len() - 2)
        } else {
            slice_subrange(section, 0, 0)
        }
    } else {
        section
    };
    assert(content@ =~= section_content(section@, close@));
    let sep: [u8; 2] = [13u8, 10u8];
    assert(sep@ =~= crlf());
    let lines = split(content, &sep);
    let ghost ls = lines@.map_values(|v: Vec<u8>| v@);
    if lines.len() == 0 {
        return Err(Fail::new(FailKind::MissingFieldName));
    }
    assert(ls[0] == lines@[0]@);
    let name = match name_of_part(lines[0].as_slice()) {
        Some(n) => n,
        None => {
            return Err(Fail::new(FailKind::MissingFieldName));
        },
    };
    let b = find_blank(&lines);
    if b < lines.len() && b + 1 < lines.len() {
        assert(ls[b + 1] == lines@[b + 1]@);
        let value = lines[b + 1].clone();
        Ok((name, value))
    } else {
        Err(Fail::new(FailKind::MalformedPart))
    }
}

/// Decodes a `multipart/form-data` body.
pub fn parse_multipart_form(body: &[u8], boundary: &[char]) -> (r: Result<FieldMap<Vec<u8>>, Fail>)
    ensures
        match multipart_form(body@, boundary@) {
            Ok(m) => r matches Ok(f) && f.wf() && f@ == m,
            Err(e) => r matches Err(f) && f.kind == e,
        },
{
    let crlf_bytes: [u8; 2] = [13u8, 10u8];
    let close_tail: [u8; 4] = [45u8, 45u8, 13u8, 10u8];
    let delim = marker(boundary, &crlf_bytes);
    let close = marker(boundary, &close_tail);
    assert(crlf_bytes@ =~= crlf());
    assert(delim@ =~= delimiter(boundary@));
    assert(close@ =~= closing(boundary@));
    let sections = split(body, delim.as_slice());
    let ghost secs = sections@.map_values(|v: Vec<u8>| v@);
    let ghost parts = secs.drop_first();
    let mut params: FieldMap<Vec<u8>> = FieldMap::new();
    let mut i: usize = 1;
    assert(parts.take(0) =~= Seq::<Seq<u8>>::empty());
    while i < sections.len()
        invariant
            secs == sections@.map_values(|v: Vec<u8>| v@),
            secs == split_spec(body@, delimiter(boundary@)),
            parts == secs.drop_first(),
            close@ == closing(boundary@),
            1 <= i,
            i <= sections@.len() || sections@.len() == 0,
            params.wf(),
            multipart_of(parts.take(i - 1), close@) == Ok::<Map<Seq<char>, Seq<u8>>, FailKind>(params@),
        decreases sections@.len() - i,
    {
        let ghost before = parts.take(i - 1);
        assert(parts.take(i as int).drop_last() =~= before);
        assert(parts.take(i as int).last() == sections@[i as int]@);
        match parse_part(sections[i].as_slice(), close.as_slice()) {
            Ok((name, value)) => {
                params.insert(string_of(name.as_slice()), value);
            },
            Err(e) => {
                proof {
                    lemma_multipart_err(parts, close@, i - 1);
                }
                return Err(e);
            },
        }
        i += 1;
    }
    proof {
        if sections@.len() > 0 {
            assert(parts.take(sections@.len() - 1) =~= parts);
        } else {
            assert(parts =~= Seq::<Seq<u8>>::empty());
        }
    }
    Ok(params)
}

/// Once a section fails, the whole body fails with that section's failure,
/// whatever follows it.
proof fn lemma_multipart_err(parts: Seq<Seq<u8>>, close: Seq<u8>, i: int)
    requires
        0 <= i < parts.len(),
        multipart_of(parts.take(i), close) is Ok,
        part_of(parts[i], close) is Err,
    ensures
        multipart_of(parts, close) == Err::<Map<Seq<char>, Seq<u8>>, FailKind>(
            part_of(parts[i], close)->Err_0,
        ),
    decreases parts.len(),
{
    if i < parts.len() - 1 {
        assert(parts.drop_last().take(i) =~= parts.take(i));
        lemma_multipart_err(parts.drop_last(), close, i);
    } else {
        assert(parts.drop_last() =~= parts.take(i));
    }
}

/// The value of the last `boundary=` attribute of a content type.
pub open spec fn boundary_in(attrs: Seq<Seq<char>>) -> Option<Seq<char>>
    decreases attrs.len(),
{
    if attrs.len() == 0 {
        None
    } else if starts_with(trim(attrs.last()), "boundary="@) {
        Some(attribute_value(trim(attrs.last())))
    } else {
        boundary_in(attrs.drop_last())
    }
}

/// The content type of a request: its trimmed `content-type` header, or
/// `text/plain` where there is none.
pub open spec fn content_type_of(headers: Map<Seq<char>, Seq<char>>) -> Seq<char> {
    if headers.contains_key("content-type"@) {
        trim(headers["content-type"@])
    } else {
        TEXT_PLAIN@
    }
}

pub open spec fn boundary_of(headers: Map<Seq<char>, Seq<char>>) -> Option<Seq<char>> {
    if headers.contains_key("content-type"@) {
        boundary_in(split_char(headers["content-type"@], ';'))
    } else {
        None
    }
}

/// The fields of a request body, by its content type: URL-encoded pairs,
/// multipart parts, or else the whole body under `__raw`.
pub open spec fn body_fields(headers: Map<Seq<char>, Seq<char>>, body: Seq<u8>) -> Result<
    Map<Seq<char>, Seq<u8>>,
    FailKind,
> {
    let ct = content_type_of(headers);
    if starts_with(ct, APPLICATION_X_WWW_FORM_URLENCODED@) {
        if valid_utf8(body) {
            Ok(parameters(decode_utf8(body)).map_values(|v: Seq<char>| encode_utf8(v)))
        } else {
            Err(FailKind::InvalidBodyEncoding)
        }
    } else if starts_with(ct, MULTIPART_FORM_DATA@) {
        match boundary_of(headers) {
            None => Err(FailKind::MissingBoundary),
            Some(b) => multipart_form(body, b),
        }
    } else {
        Ok(Map::empty().insert("__raw"@, body))
    }
}

fn find_boundary(attrs: &Vec<Vec<char>>) -> (r: Option<Vec<char>>)
    ensures
        r matches Some(v) ==> boundary_in(views_of(attrs@)) == Some(v@),
        r is None ==> boundary_in(views_of(attrs@)) is None,
{
    let ghost all = views_of(attrs@);
    let mut found: Option<Vec<char>> = None;
    let mut i: usize = 0;
    let prefix = chars_of("boundary=");
    assert(all.take(0) =~= Seq::<Seq<char>>::empty());
    while i < attrs.len()
        invariant
            all == views_of(attrs@),
            i <= attrs@.len(),
            prefix@ == "boundary="@,
            found matches Some(v) ==> boundary_in(all.take(i as int)) == Some(v@),
            found is None ==> boundary_in(all.take(i as int)) is None,
        decreases attrs@.len() - i,
    {
        let a = trim_chars(attrs[i].as_slice());
        assert(all.take(i + 1).drop_last() =~= all.take(i as int));
        assert(all.take(i + 1).last() == attrs@[i as int]@);
        if starts_with_chars(a.as_slice(), prefix.as_slice()) {
            proof {
                lemma_char_index(a@, '=');
                reveal_strlit("boundary=");
                assert(a@.take(9)[8] == '=');
                assert(a@[8] == '=');
            }
            found = Some(attribute_value_of(a.as_slice()));
        }
        i += 1;
    }
    assert(all.take(attrs@.len() as int) =~= all);
    found
}

/// Decodes a request body by the request's content type.
pub fn parse_body(headers: &FieldMap<String>, body: &[u8]) -> (r: Result<FieldMap<Vec<u8>>, Fail>)
    requires
        headers.wf(),
    ensures
        match body_fields(headers@, body@) {
            Ok(m) => r matches Ok(f) && f.wf() && f@ == m,
            Err(e) => r matches Err(f) && f.kind == e,
        },
{
    let (content_type, boundary) = match headers.get("content-type") {
        None => (chars_of(TEXT_PLAIN), None),
        Some(value) => {
            let chars = chars_of(value.as_str());
            let attrs = split_chars(chars.as_slice(), ';');
            (trim_chars(chars.as_slice()), find_boundary(&attrs))
        },
    };
    let form = chars_of(APPLICATION_X_WWW_FORM_URLENCODED);
    let multipart = chars_of(MULTIPART_FORM_DATA);
    if starts_with_chars(content_type.as_slice(), form.as_slice()) {
        match utf8_string(slice_to_vec(body)) {
            None => Err(Fail::new(FailKind::InvalidBodyEncoding)),
            Some(text) => {
                let chars = chars_of(text.as_str());
                Ok(parse_form_fields(chars.as_slice()))
            },
        }
    } else if starts_with_chars(content_type.as_slice(), multipart.as_slice()) {
        match boundary {
            None => Err(Fail::new(FailKind::MissingBoundary)),
            Some(b) => parse_multipart_form(body, b.as_slice()),
        }
    } else {
        let mut fields: FieldMap<Vec<u8>> = FieldMap::new();
        fields.insert(String::from_str("__raw"), slice_to_vec(body));
        Ok(fields)
    }
}

/// The request line's words, where the header has a first line.
pub open spec fn request_words(header: Seq<char>) -> Seq<Seq<char>> {
    let ls = lines(header);
    if ls.len() > 0 {
        words(ls[0])
    } else {
        Seq::empty()
    }
}

/// The fields of header lines: each line with a `:` sets its trimmed,
/// lower-cased name to its trimmed value; later lines overwrite earlier ones.
pub open spec fn header_fields(ls: Seq<Seq<char>>) -> Map<Seq<char>, Seq<char>>
    decreases ls.len(),
{
    if ls.len() == 0 {
        Map::empty()
    } else {
        let m = header_fields(ls.drop_last());
        let l = ls.last();
        let k = char_index(l, ':');
        if k < l.len() {
            m.insert(lower_of(trim(l.take(k as int))), trim(l.skip(k + 1 as int)))
        } else {
            m
        }
    }
}

/// The path of a request target: the text before the first `?`.
pub open spec fn path_of(target: Seq<char>) -> Seq<char> {
    target.take(char_index(target, '?') as int)
}

/// The query parameters of a request target, where it has a `?`.
pub open spec fn query_of(target: Seq<char>) -> Map<Seq<char>, Seq<char>> {
    let k = char_index(target, '?');
    if k < target.len() {
        parameters(target.skip(k + 1 as int))
    } else {
        Map::empty()
    }
}

/// A parsed request.
pub struct HttpRequest {
    method: HttpMethod,
    url: String,
    version: HttpVersion,
    ip: String,
    headers: FieldMap<String>,
    search_params: FieldMap<String>,
    body: FieldMap<Vec<u8>>,
}

fn parse_headers(ls: &Vec<Vec<char>>) -> (r: FieldMap<String>)
    requires
        ls@.len() > 0,
    ensures
        r.wf(),
        r@ == header_fields(views_of(ls@).drop_first()),
{
    let ghost all = views_of(ls@).drop_first();
    let mut headers: FieldMap<String> = FieldMap::new();
    let mut i: usize = 1;
    assert(all.take(0) =~= Seq::<Seq<char>>::empty());
    while i < ls.len()
        invariant
            all == views_of(ls@).drop_first(),
            1 <= i <= ls@.len(),
            headers.wf(),
            headers@ == header_fields(all.take(i - 1)),
        decreases ls@.len() - i,
    {
        let line = ls[i].as_slice();
        assert(all.take(i as int).drop_last() =~= all.take(i - 1));
        assert(all.take(i as int).last() == line@);
        let k = find_char(line, ':');
        proof {
            lemma_char_index(line@, ':');
        }
        if k < line.len() {
            let name = slice_subrange(line, 0, k);
            let value = slice_subrange(line, k + 1, line.len());
            assert(name@ =~= line@.take(k as int));
            assert(value@ =~= line@.skip(k + 1 as int));
            let key = lower(trim_chars(name).as_slice());
            let v = trim_chars(value);
            headers.insert(string_of(key.as_slice()), string_of(v.as_slice()));
        }
        i += 1;
    }
    assert(all.take(ls@.len() - 1) =~= all);
    headers
}

impl HttpRequest {
    pub closed spec fn spec_method(&self) -> HttpMethod {
        self.method
    }

    pub closed spec fn spec_url(&self) -> Seq<char> {
        self.url@
    }

    pub closed spec fn spec_version(&self) -> HttpVersion {
        self.version
    }

    pub closed spec fn spec_ip(&self) -> Seq<char> {
        self.ip@
    }

    pub closed spec fn spec_headers(&self) -> Map<Seq<char>, Seq<char>> {
        self.headers@
    }

    pub closed spec fn spec_search_params(&self) -> Map<Seq<char>, Seq<char>> {
        self.search_params@
    }

    pub closed spec fn spec_body(&self) -> Map<Seq<char>, Seq<u8>> {
        self.body@
    }

    pub closed spec fn wf(&self) -> bool {
        self.headers.wf() && self.search_params.wf() && self.body.wf()
    }

    /// Parses a header block and its body into a request.
    pub fn from(raw_header: &str, raw_body: Vec<u8>, ip: &str) -> (r: Result<HttpRequest, Fail>)
        ensures
            request_words(raw_header@).len() < 3 ==> r == Err::<HttpRequest, Fail>(
                Fail { kind: FailKind::MalformedRequestLine },
            ),
            request_words(raw_header@).len() >= 3 ==> {
                let ws = request_words(raw_header@);
                let hs = header_fields(lines(raw_header@).drop_first());
                match body_fields(hs, raw_body@) {
                    Err(e) => r == Err::<HttpRequest, Fail>(Fail { kind: e }),
                    Ok(b) => r matches Ok(req) && {
                        &&& req.wf()
                        &&& req.spec_method() == method_of(ws[0])
                        &&& req.spec_url() == path_of(ws[1])
                        &&& req.spec_version() == version_of(ws[2])
                        &&& req.spec_ip() == ip@
                        &&& req.spec_headers() == hs
                        &&& req.spec_search_params() == query_of(ws[1])
                        &&& req.spec_body() == b
                    },
                }
            },
    {
        let text = chars_of(raw_header);
        let ls = lines_of(text.as_slice());
        if ls.len() == 0 {
            return Err(Fail::new(FailKind::MalformedRequestLine));
        }
        let ws = words_of(ls[0].as_slice());
        if ws.len() < 3 {
            return Err(Fail::new(FailKind::MalformedRequestLine));
        }
        let method = HttpMethod::parse(ws[0].as_slice());
        let target = ws[1].as_slice();
        let q = find_char(target, '?');
        proof {
            lemma_char_index(target@, '?');
        }
        let path = slice_subrange(target, 0, q);
        assert(path@ =~= path_of(target@));
        let version = HttpVersion::parse(ws[2].as_slice());
        let headers = parse_headers(&ls);
        let search_params = if q < target.len() {
            let query = slice_subrange(target, q + 1, target.len());
            assert(query@ =~= target@.skip(q + 1 as int));
            parse_parameters(query)
        } else {
            FieldMap::new()
        };
        let body = parse_body(&headers, raw_body.as_slice())?;
        Ok(HttpRequest {
            method,
            url: string_of(path),
            version,
            ip: String::from_str(ip),
            headers,
            search_params,
            body,
        })
    }

    pub fn method(&self) -> (r: &HttpMethod)
        ensures
            *r == self.spec_method(),
    {
        &self.method
    }

    pub fn url(&self) -> (r: &str)
        ensures
            r@ == self.spec_url(),
    {
        self.url.as_str()
    }

    pub fn version(&self) -> (r: &HttpVersion)
        ensures
            *r == self.spec_version(),
    {
        &self.version
    }

    pub fn ip(&self) -> (r: &str)
        ensures
            r@ == self.spec_ip(),
    {
        self.ip.as_str()
    }

    pub fn headers(&self) -> (r: &FieldMap<String>)
        ensures
            r@ == self.spec_headers(),
            self.wf() ==> r.wf(),
    {
        &self.headers
    }

    pub fn search_params(&self) -> (r: &FieldMap<String>)
        ensures
            r@ == self.spec_search_params(),
            self.wf() ==> r.wf(),
    {
        &self.search_params
    }

    /// The body fields with their values decoded as text, invalid UTF-8
    /// sequences replaced.
    pub fn body_utf8(&self) -> (r: FieldMap<String>)
        requires
            self.wf(),
        ensures
            r.wf(),
            r@ == self.spec_body().map_values(|v: Seq<u8>| lossy_of(v)),
    {
        self.body.to_text()
    }

    pub fn body(&self) -> (r: &FieldMap<Vec<u8>>)
        ensures
            r@ == self.spec_body(),
            self.wf() ==> r.wf(),
    {
        &self.body
    }
}

} // verus!
