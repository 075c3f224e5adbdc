//! Requests from clients:
//!
//! `<command> <SP> <key length varint><key> [<value length varint><value>]`
//!
//! The command is `GET`, `INSERT` or `DELETE`, in any case; only `INSERT`
//! carries a value. Keys are non-empty UTF-8.

use vstd::prelude::*;
use crate::error::NldbError;
use crate::util::{
    copy_range, decode_untrusted_varint, law_varint_roundtrip, lemma_varint_len_bound, varint_bytes,
    varint_decoded_at, varint_len_at,
};

verus! {

// ---------------------------------------------------------------------------
// UTF-8
// ---------------------------------------------------------------------------

/// Whether `b` is a continuation byte in `0x80..=0xBF`.
pub open spec fn is_cont(b: u8) -> bool {
    0x80 <= b <= 0xBF
}

/// The length of the well-formed UTF-8 encoding of one scalar value that
/// starts at `i`, following the table of well-formed byte sequences of the
/// Unicode standard; `None` when there is none.
pub open spec fn utf8_char_len(s: Seq<u8>, i: int) -> Option<nat> {
    let n = s.len() - i;
    if i < 0 || n < 1 {
        None
    } else if s[i] <= 0x7F {
        Some(1)
    } else if 0xC2 <= s[i] <= 0xDF {
        if n >= 2 && is_cont(s[i + 1]) { Some(2) } else { None }
    } else if 0xE0 <= s[i] <= 0xEF {
        let lo: u8 = if s[i] == 0xE0 { 0xA0 } else { 0x80 };
        let hi: u8 = if s[i] == 0xED { 0x9F } else { 0xBF };
        if n >= 3 && lo <= s[i + 1] <= hi && is_cont(s[i + 2]) { Some(3) } else { None }
    } else if 0xF0 <= s[i] <= 0xF4 {
        let lo: u8 = if s[i] == 0xF0 { 0x90 } else { 0x80 };
        let hi: u8 = if s[i] == 0xF4 { 0x8F } else { 0xBF };
        if n >= 4 && lo <= s[i + 1] <= hi && is_cont(s[i + 2]) && is_cont(s[i + 3]) {
            Some(4)
        } else {
            None
        }
    } else {
        None
    }
}

/// Whether the bytes from `i` on are well-formed UTF-8.
pub open spec fn utf8_from(s: Seq<u8>, i: int) -> bool
    decreases s.len() - i,
{
    if i < 0 {
        false
    } else if i >= s.len() {
        true
    } else {
        match utf8_char_len(s, i) {
            Some(n) => utf8_from(s, i + n),
            None => false,
        }
    }
}

/// Whether the bytes are well-formed UTF-8.
pub open spec fn is_utf8(s: Seq<u8>) -> bool {
    utf8_from(s, 0)
}

/// The length of the scalar value at `i`, if well-formed.
fn utf8_char_len_at(s: &[u8], i: usize) -> (r: usize)
    requires
        i < s@.len(),
    ensures
        r == match utf8_char_len(s@, i as int) {
            Some(n) => n,
            None => 0,
        },
{
    let n = s.len() - i;
    let b = s[i];
    if b <= 0x7F {
        1
    } else if 0xC2 <= b && b <= 0xDF {
        if n >= 2 && 0x80 <= s[i + 1] && s[i + 1] <= 0xBF { 2 } else { 0 }
    } else if 0xE0 <= b && b <= 0xEF {
        let lo: u8 = if b == 0xE0 { 0xA0 } else { 0x80 };
        let hi: u8 = if b == 0xED { 0x9F } else { 0xBF };
        if n >= 3 && lo <= s[i + 1] && s[i + 1] <= hi && 0x80 <= s[i + 2] && s[i + 2] <= 0xBF {
            3
        } else {
            0
        }
    } else if 0xF0 <= b && b <= 0xF4 {
        let lo: u8 = if b == 0xF0 { 0x90 } else { 0x80 };
        let hi: u8 = if b == 0xF4 { 0x8F } else { 0xBF };
        if n >= 4 && lo <= s[i + 1] && s[i + 1] <= hi && 0x80 <= s[i + 2] && s[i + 2] <= 0xBF
            && 0x80 <= s[i + 3] && s[i + 3] <= 0xBF {
            4
        } else {
            0
        }
    } else {
        0
    }
}

/// Whether the bytes are well-formed UTF-8.
pub fn validate_utf8(s: &[u8]) -> (r: bool)
    ensures
        r == is_utf8(s@),
{
    let mut i: usize = 0;
    while i < s.len()
        invariant
            i <= s@.len(),
            is_utf8(s@) == utf8_from(s@, i as int),
        decreases s.len() - i,
    {
        let n = utf8_char_len_at(s, i);
        if n == 0 {
            return false;
        }
        i = i + n;
    }
    true
}

// ---------------------------------------------------------------------------
// Requests
// ---------------------------------------------------------------------------

/// Upper-cases an ASCII letter and leaves any other byte as it is.
pub open spec fn to_upper(b: u8) -> u8 {
    if 97 <= b <= 122 {
        (b - 32) as u8
    } else {
        b
    }
}

/// Normalizes a command token to upper case, in place.
fn normalize_statement(typeh: &mut Vec<u8>)
    ensures
        final(typeh)@ == old(typeh)@.map_values(|b: u8| to_upper(b)),
{
    let mut i: usize = 0;
    while i < typeh.len()
        invariant
            i <= typeh@.len(),
            typeh@.len() == old(typeh)@.len(),
            forall|j: int| 0 <= j < i ==> typeh@[j] == to_upper(old(typeh)@[j]),
            forall|j: int| i <= j < typeh@.len() ==> typeh@[j] == old(typeh)@[j],
        decreases typeh.len() - i,
    {
        let b = typeh[i];
        if b >= 97u8 && b <= 122u8 {
            typeh.set(i, (b - 97u8) + 65u8);
        }
        i = i + 1;
    }
    assert(typeh@ =~= old(typeh)@.map_values(|b: u8| to_upper(b)));
}

/// The position of the first space at or after `off`, or the end of the
/// buffer when there is none.
pub open spec fn space_from(s: Seq<u8>, off: int) -> int
    decreases s.len() - off,
{
    if off >= s.len() || off < 0 {
        off
    } else if s[off] == 32 {
        off
    } else {
        space_from(s, off + 1)
    }
}

/// Moves `*offset` to the first space at or after it, or to the end.
fn parse_to_space(buffer: &[u8], offset: &mut usize)
    requires
        *old(offset) <= buffer@.len(),
    ensures
        *final(offset) == space_from(buffer@, *old(offset) as int),
        *final(offset) <= buffer@.len(),
{
    let buffer_size = buffer.len();
    while *offset < buffer_size && buffer[*offset] != 32u8
        invariant
            buffer_size == buffer@.len(),
            *old(offset) <= *offset <= buffer_size,
            space_from(buffer@, *old(offset) as int) == space_from(buffer@, *offset as int),
        decreases buffer_size - *offset,
    {
        *offset = *offset + 1;
    }
}

/// The three commands.
#[derive(PartialEq, Eq, Structural, Clone, Copy, Debug)]
pub enum RequestType {
    Get,
    Delete,
    Insert,
}

/// The command that a token names, in any case.
pub open spec fn command_of(tok: Seq<u8>) -> Option<RequestType> {
    let up = tok.map_values(|b: u8| to_upper(b));
    if up == seq![71u8, 69u8, 84u8] {
        Some(RequestType::Get)
    } else if up == seq![73u8, 78u8, 83u8, 69u8, 82u8, 84u8] {
        Some(RequestType::Insert)
    } else if up == seq![68u8, 69u8, 76u8, 69u8, 84u8, 69u8] {
        Some(RequestType::Delete)
    } else {
        None
    }
}

fn bytes_eq(a: &Vec<u8>, b: &[u8]) -> (r: bool)
    ensures
        r == (a@ == b@),
{
    if a.len() != b.len() {
        return false;
    }
    let mut i: usize = 0;
    while i < a.len()
        invariant
            a@.len() == b@.len(),
            i <= a@.len(),
            forall|j: int| 0 <= j < i ==> a@[j] == b@[j],
        decreases a.len() - i,
    {
        if a[i] != b[i] {
            return false;
        }
        i = i + 1;
    }
    assert(a@ =~= b@);
    true
}

impl RequestType {
    /// Reads the command token; `InvalidQuery` when it names no command.
    pub fn parse(typeh: &mut Vec<u8>) -> (r: Result<RequestType, NldbError>)
        ensures
            match command_of(old(typeh)@) {
                Some(t) => r == Ok::<RequestType, NldbError>(t),
                None => r == Err::<RequestType, NldbError>(NldbError::InvalidQuery),
            },
    {
        normalize_statement(typeh);
        let get: [u8; 3] = [71u8, 69u8, 84u8];
        let insert: [u8; 6] = [73u8, 78u8, 83u8, 69u8, 82u8, 84u8];
        let delete: [u8; 6] = [68u8, 69u8, 76u8, 69u8, 84u8, 69u8];
        proof {
            assert(get@ =~= seq![71u8, 69u8, 84u8]);
            assert(insert@ =~= seq![73u8, 78u8, 83u8, 69u8, 82u8, 84u8]);
            assert(delete@ =~= seq![68u8, 69u8, 76u8, 69u8, 84u8, 69u8]);
        }
        if bytes_eq(typeh, &get) {
            Ok(RequestType::Get)
        } else if bytes_eq(typeh, &insert) {
            Ok(RequestType::Insert)
        } else if bytes_eq(typeh, &delete) {
            Ok(RequestType::Delete)
        } else {
            Err(NldbError::InvalidQuery)
        }
    }
}

/// A request of a client.
#[derive(Debug, PartialEq, Eq)]
pub enum NldbRequest {
    Get { key: Vec<u8> },
    Delete { key: Vec<u8> },
    Insert { key: Vec<u8>, value: Vec<u8> },
}

/// A request as values: its command, key and (for an insert) value.
pub enum RequestView {
    Get(Seq<u8>),
    Delete(Seq<u8>),
    Insert(Seq<u8>, Seq<u8>),
}

impl View for NldbRequest {
    type V = RequestView;

    open spec fn view(&self) -> RequestView {
        match self {
            NldbRequest::Get { key } => RequestView::Get(key@),
            NldbRequest::Delete { key } => RequestView::Delete(key@),
            NldbRequest::Insert { key, value } => RequestView::Insert(key@, value@),
        }
    }
}

/// A length-prefixed field at `off`: its bytes and where it ends; `None`
/// when the varint is malformed or the field runs past the end.
pub open spec fn field_at(s: Seq<u8>, off: int) -> Option<(Seq<u8>, int)> {
    match varint_len_at(s, off) {
        None => None,
        Some(n) => {
            let start = off + n;
            let end = start + varint_decoded_at(s, off);
            if end > s.len() {
                None
            } else {
                Some((s.subrange(start, end), end))
            }
        },
    }
}

/// The key at `off`: a non-empty, UTF-8, length-prefixed field.
pub open spec fn key_at(s: Seq<u8>, off: int) -> Option<(Seq<u8>, int)> {
    match field_at(s, off) {
        Some((k, end)) => if k.len() > 0 && is_utf8(k) {
            Some((k, end))
        } else {
            None
        },
        None => None,
    }
}

/// What a request body means: `None` for every body that is refused with
/// `InvalidQuery`. Bytes after the last field are ignored.
pub open spec fn request_of(s: Seq<u8>) -> Option<RequestView> {
    let sp = space_from(s, 0);
    if sp >= s.len() {
        None
    } else {
        match command_of(s.subrange(0, sp)) {
            None => None,
            Some(t) => match key_at(s, sp + 1) {
                None => None,
                Some((key, kend)) => match t {
                    RequestType::Get => Some(RequestView::Get(key)),
                    RequestType::Delete => Some(RequestView::Delete(key)),
                    RequestType::Insert => match field_at(s, kend) {
                        None => None,
                        Some((value, _)) => Some(RequestView::Insert(key, value)),
                    },
                },
            },
        }
    }
}

/// Reads a length-prefixed field at `offset`.
fn parse_field(buffer: &[u8], offset: usize) -> (r: Result<(Vec<u8>, usize), NldbError>)
    requires
        offset <= buffer@.len(),
    ensures
        match field_at(buffer@, offset as int) {
            Some((f, end)) => r matches Ok((v, e)) && v@ == f && e == end,
            None => r == Err::<(Vec<u8>, usize), NldbError>(NldbError::InvalidQuery),
        },
{
    let (len, bytes_walked) = match decode_untrusted_varint(buffer, offset) {
        Ok(v) => v,
        Err(e) => {
            return Err(e);
        },
    };
    let _len = buffer.len();
    proof {
        lemma_varint_len_bound(buffer@, offset as int, 0);
    }
    let start = offset + bytes_walked;
    if len > (buffer.len() - start) as u64 {
        return Err(NldbError::InvalidQuery);
    }
    let end = start + len as usize;
    let field = copy_range(buffer, start, end);
    Ok((field, end))
}

/// Reads the key at `offset`: `InvalidQuery` when its length is zero,
/// malformed or beyond the buffer, or when it is not UTF-8.
fn parse_key(buffer: &[u8], offset: usize) -> (r: Result<(Vec<u8>, usize), NldbError>)
    requires
        offset <= buffer@.len(),
    ensures
        match key_at(buffer@, offset as int) {
            Some((k, end)) => r matches Ok((v, e)) && v@ == k && e == end,
            None => r == Err::<(Vec<u8>, usize), NldbError>(NldbError::InvalidQuery),
        },
{
    let (key, key_end) = match parse_field(buffer, offset) {
        Ok(v) => v,
        Err(e) => {
            return Err(e);
        },
    };
    if key.len() == 0 {
        return Err(NldbError::InvalidQuery);
    }
    if !validate_utf8(key.as_slice()) {
        return Err(NldbError::InvalidQuery);
    }
    Ok((key, key_end))
}

impl NldbRequest {
    /// Parses a request body. Every body that `request_of` refuses gives
    /// `InvalidQuery`; every other gives its request.
    pub fn parse(buffer: Vec<u8>) -> (r: Result<NldbRequest, NldbError>)
        ensures
            match request_of(buffer@) {
                Some(req) => r matches Ok(q) && q@ == req,
                None => r == Err::<NldbRequest, NldbError>(NldbError::InvalidQuery),
            },
    {
        let buffer_size = buffer.len();
        let mut offset: usize = 0;
        parse_to_space(buffer.as_slice(), &mut offset);
        if offset >= buffer_size {
            return Err(NldbError::InvalidQuery);
        }
        let mut typeh = copy_range(buffer.as_slice(), 0, offset);
        let statement_type = match RequestType::parse(&mut typeh) {
            Ok(t) => t,
            Err(e) => {
                return Err(e);
            },
        };
        offset = offset + 1;
        match statement_type {
            RequestType::Get => Self::parse_get(buffer, offset),
            RequestType::Insert => Self::parse_insert(buffer, offset),
            RequestType::Delete => Self::parse_delete(buffer, offset),
        }
    }

    fn parse_get(buffer: Vec<u8>, offset: usize) -> (r: Result<NldbRequest, NldbError>)
        requires
            offset <= buffer@.len(),
        ensures
            match key_at(buffer@, offset as int) {
                Some((k, _)) => r matches Ok(q) && q@ == RequestView::Get(k),
                None => r == Err::<NldbRequest, NldbError>(NldbError::InvalidQuery),
            },
    {
        match parse_key(buffer.as_slice(), offset) {
            Ok((key, _)) => Ok(NldbRequest::Get { key }),
            Err(e) => Err(e),
        }
    }

    fn parse_insert(buffer: Vec<u8>, offset: usize) -> (r: Result<NldbRequest, NldbError>)
        requires
            offset <= buffer@.len(),
        ensures
            match key_at(buffer@, offset as int) {
                Some((k, kend)) => match field_at(buffer@, kend) {
                    Some((v, _)) => r matches Ok(q) && q@ == RequestView::Insert(k, v),
                    None => r == Err::<NldbRequest, NldbError>(NldbError::InvalidQuery),
                },
                None => r == Err::<NldbRequest, NldbError>(NldbError::InvalidQuery),
            },
    {
        let (key, offset) = match parse_key(buffer.as_slice(), offset) {
            Ok(v) => v,
            Err(e) => {
                return Err(e);
            },
        };
        match parse_field(buffer.as_slice(), offset) {
            Ok((value, _)) => Ok(NldbRequest::Insert { key, value }),
            Err(e) => Err(e),
        }
    }

    fn parse_delete(buffer: Vec<u8>, offset: usize) -> (r: Result<NldbRequest, NldbError>)
        requires
            offset <= buffer@.len(),
        ensures
            match key_at(buffer@, offset as int) {
                Some((k, _)) => r matches Ok(q) && q@ == RequestView::Delete(k),
                None => r == Err::<NldbRequest, NldbError>(NldbError::InvalidQuery),
            },
    {
        match parse_key(buffer.as_slice(), offset) {
            Ok((key, _)) => Ok(NldbRequest::Delete { key }),
            Err(e) => Err(e),
        }
    }
}


/// Whether `tok` spells `word`, an upper-case ASCII word, in any mix of
/// upper and lower case.
pub open spec fn spells(tok: Seq<u8>, word: Seq<u8>) -> bool {
    &&& tok.len() == word.len()
    &&& forall|i: int| 0 <= i < tok.len() ==> 65 <= #[trigger] word[i] <= 90 && (tok[i] == word[i]
        || tok[i] == word[i] + 32)
}

/// The request body of a command token and the length-prefixed fields
/// after it, with whatever follows.
pub open spec fn body_of(tok: Seq<u8>, fields: Seq<Seq<u8>>, rest: Seq<u8>) -> Seq<u8>
    decreases fields.len(),
{
    if fields.len() == 0 {
        tok + seq![32u8] + rest
    } else {
        body_of(tok, fields.drop_last(), varint_bytes(fields.last().len()) + fields.last() + rest)
    }
}

/// A token that spells a word reads as that word, in upper case.
proof fn lemma_spelled_token(tok: Seq<u8>, word: Seq<u8>)
    requires
        spells(tok, word),
    ensures
        tok.map_values(|b: u8| to_upper(b)) == word,
{
    assert forall|i: int| 0 <= i < tok.len() implies tok.map_values(|b: u8| to_upper(b))[i] == word[i] by {
        assert(65 <= word[i] <= 90);
    }
    assert(tok.map_values(|b: u8| to_upper(b)) =~= word);
}

/// The first space of a body that starts with a token of letters is right
/// after the token.
proof fn lemma_space_after_token(s: Seq<u8>, tok: Seq<u8>, word: Seq<u8>, off: int)
    requires
        spells(tok, word),
        0 <= off <= tok.len(),
        tok.len() < s.len(),
        s.subrange(0, tok.len() as int) == tok,
        s[tok.len() as int] == 32,
    ensures
        space_from(s, off) == tok.len(),
    decreases tok.len() - off,
{
    if off < tok.len() {
        assert(s[off] == tok[off]);
        assert(65 <= word[off] <= 90);
        lemma_space_after_token(s, tok, word, off + 1);
    }
}

/// The field `f`, length-prefixed at `off`, reads back as `f`.
pub proof fn lemma_field_back(s: Seq<u8>, off: int, f: Seq<u8>)
    requires
        0 <= off,
        f.len() <= usize::MAX,
        off + varint_bytes(f.len()).len() + f.len() <= s.len(),
        s.subrange(off, off + varint_bytes(f.len()).len() + f.len()) == varint_bytes(f.len()) + f,
    ensures
        field_at(s, off) == Some((f, off + varint_bytes(f.len()).len() + f.len())),
{
    let vb = varint_bytes(f.len());
    let n = vb.len() as int;
    assert(s.subrange(off, off + n) =~= vb) by {
        assert forall|i: int| 0 <= i < n implies s.subrange(off, off + n)[i] == vb[i] by {
            assert(s.subrange(off, off + n + f.len())[i] == (vb + f)[i]);
        }
    }
    law_varint_roundtrip(f.len() as usize, s, off);
    assert(s.subrange(off + n, off + n + f.len()) =~= f) by {
        assert forall|i: int| 0 <= i < f.len() implies s.subrange(off + n, off + n + f.len())[i] == f[i] by {
            assert(s.subrange(off, off + n + f.len())[n + i] == (vb + f)[n + i]);
        }
    }
}

/// The parts of a body of a token, one field and a rest.
proof fn lemma_one_field(tok: Seq<u8>, f: Seq<u8>, rest: Seq<u8>)
    ensures
        body_of(tok, seq![f], rest) == tok + seq![32u8] + (varint_bytes(f.len()) + f + rest),
{
    let fs = seq![f];
    assert(fs.drop_last() =~= Seq::<Seq<u8>>::empty());
    assert(fs.last() == f);
    assert(body_of(tok, Seq::<Seq<u8>>::empty(), varint_bytes(f.len()) + f + rest) == tok + seq![32u8] + (
    varint_bytes(f.len()) + f + rest));
}

/// The command token, its space and the key of a body, read back.
proof fn lemma_token_and_key(tok: Seq<u8>, word: Seq<u8>, k: Seq<u8>, tail: Seq<u8>)
    requires
        spells(tok, word),
        k.len() <= usize::MAX,
    ensures
        ({
            let s = tok + seq![32u8] + (varint_bytes(k.len()) + k + tail);
            let kend: int = tok.len() as int + 1 + varint_bytes(k.len()).len() + k.len();
            &&& space_from(s, 0) == tok.len()
            &&& tok.len() < s.len()
            &&& s.subrange(0, tok.len() as int) == tok
            &&& field_at(s, tok.len() + 1int) == Some((k, kend))
            &&& s.subrange(kend, s.len() as int) == tail
        }),
{
    let s = tok + seq![32u8] + (varint_bytes(k.len()) + k + tail);
    let off: int = tok.len() as int + 1;
    assert(s.subrange(0, tok.len() as int) =~= tok);
    assert(s[tok.len() as int] == 32);
    lemma_space_after_token(s, tok, word, 0);
    let n: int = varint_bytes(k.len()).len() as int;
    assert(s.subrange(off, off + n + k.len()) =~= varint_bytes(k.len()) + k);
    lemma_field_back(s, off, k);
    assert(s.subrange(off + n + k.len(), s.len() as int) =~= tail);
}

/// A `GET` body reads as a read of its key: whatever the key's length, and
/// whatever bytes follow.
pub proof fn law_get_body(tok: Seq<u8>, k: Seq<u8>, rest: Seq<u8>)
    requires
        spells(tok, seq![71u8, 69u8, 84u8]),
        k.len() > 0,
        is_utf8(k),
        k.len() <= usize::MAX,
    ensures
        request_of(body_of(tok, seq![k], rest)) == Some(RequestView::Get(k)),
{
    lemma_one_field(tok, k, rest);
    lemma_token_and_key(tok, seq![71u8, 69u8, 84u8], k, rest);
    lemma_spelled_token(tok, seq![71u8, 69u8, 84u8]);
}

/// A `DELETE` body reads as a delete of its key: whatever the key's
/// length, and whatever bytes follow.
pub proof fn law_delete_body(tok: Seq<u8>, k: Seq<u8>, rest: Seq<u8>)
    requires
        spells(tok, seq![68u8, 69u8, 76u8, 69u8, 84u8, 69u8]),
        k.len() > 0,
        is_utf8(k),
        k.len() <= usize::MAX,
    ensures
        request_of(body_of(tok, seq![k], rest)) == Some(RequestView::Delete(k)),
{
    lemma_one_field(tok, k, rest);
    lemma_token_and_key(tok, seq![68u8, 69u8, 76u8, 69u8, 84u8, 69u8], k, rest);
    lemma_spelled_token(tok, seq![68u8, 69u8, 76u8, 69u8, 84u8, 69u8]);
}

/// An `INSERT` body reads as a write of its value under its key: whatever
/// their lengths, and whatever bytes follow.
pub proof fn law_insert_body(tok: Seq<u8>, k: Seq<u8>, v: Seq<u8>, rest: Seq<u8>)
    requires
        spells(tok, seq![73u8, 78u8, 83u8, 69u8, 82u8, 84u8]),
        k.len() > 0,
        is_utf8(k),
        k.len() <= usize::MAX,
        v.len() <= usize::MAX,
    ensures
        request_of(body_of(tok, seq![k, v], rest)) == Some(RequestView::Insert(k, v)),
{
    let word = seq![73u8, 78u8, 83u8, 69u8, 82u8, 84u8];
    let fs = seq![k, v];
    let tail = varint_bytes(v.len()) + v + rest;
    assert(fs.drop_last() =~= seq![k]);
    assert(fs.last() == v);
    lemma_one_field(tok, k, tail);
    lemma_token_and_key(tok, word, k, tail);
    lemma_spelled_token(tok, word);
    let s = tok + seq![32u8] + (varint_bytes(k.len()) + k + tail);
    let kend: int = tok.len() as int + 1 + varint_bytes(k.len()).len() + k.len();
    assert(s.subrange(kend, kend + varint_bytes(v.len()).len() + v.len()) =~= varint_bytes(v.len()) + v) by {
        assert forall|i: int| 0 <= i < varint_bytes(v.len()).len() + v.len() implies s.subrange(
            kend,
            kend + varint_bytes(v.len()).len() + v.len(),
        )[i] == (varint_bytes(v.len()) + v)[i] by {
            assert(s.subrange(kend, s.len() as int)[i] == tail[i]);
        }
    }
    lemma_field_back(s, kend, v);
}


/// A body whose key is empty or not UTF-8 is refused, whatever the command
/// and whatever follows.
pub proof fn law_bad_key_refused(tok: Seq<u8>, word: Seq<u8>, k: Seq<u8>, rest: Seq<u8>)
    requires
        spells(tok, word),
        k.len() <= usize::MAX,
        k.len() == 0 || !is_utf8(k),
    ensures
        request_of(body_of(tok, seq![k], rest)) is None,
{
    lemma_one_field(tok, k, rest);
    lemma_token_and_key(tok, word, k, rest);
}

} // verus!
