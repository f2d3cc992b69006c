//! Parsing of Language Server Protocol messages: header lines, the header block
//! and the length-delimited JSON body.
use vstd::prelude::*;
use vstd::utf8::{decode_utf8, is_ascii_chars, valid_utf8};

verus! {

#[verifier::external_type_specification]
#[verifier::external_body]
pub struct ExParseIntError(std::num::ParseIntError);

#[verifier::external_type_specification]
#[verifier::external_body]
pub struct ExFromUtf8Error(std::string::FromUtf8Error);

#[verifier::external_type_specification]
#[verifier::external_body]
pub struct ExJsonError(serde_json::Error);

#[verifier::external_type_specification]
#[verifier::external_body]
pub struct ExValue(serde_json::Value);

/// Value of a run of ASCII decimal digits.
pub open spec fn digits_value(d: Seq<char>) -> int
    decreases d.len(),
{
    if d.len() == 0 {
        0
    } else {
        digits_value(d.drop_last()) * 10 + (d.last() as int - '0' as int)
    }
}

pub open spec fn all_digits(d: Seq<char>) -> bool {
    d.len() > 0 && forall|i: int| 0 <= i < d.len() ==> '0' <= #[trigger] d[i] && d[i] <= '9'
}

/// The digits of an unsigned decimal: an optional leading `+` is dropped.
pub open spec fn unsigned_digits(s: Seq<char>) -> Seq<char> {
    if s.len() > 0 && s[0] == '+' {
        s.drop_first()
    } else {
        s
    }
}

/// What `usize::from_str` makes of `s`: an optional `+` followed by decimal
/// digits whose value fits in a `usize`.
pub open spec fn decimal_usize(s: Seq<char>) -> Option<usize> {
    let d = unsigned_digits(s);
    if all_digits(d) && digits_value(d) <= usize::MAX {
        Some(digits_value(d) as usize)
    } else {
        None
    }
}

/// Relies on `<usize as FromStr>::from_str`: an optional `+` followed by
/// decimal digits only, and a value that fits.
#[verifier::external_body]
pub(crate) fn parse_usize(s: &str) -> (r: Result<usize, std::num::ParseIntError>)
    ensures
        match r {
            Ok(n) => decimal_usize(s@) == Some(n),
            Err(_) => decimal_usize(s@) is None,
        },
{
    s.parse::<usize>()
}

/// Whether `sep` occurs in `s` at `i`.
pub open spec fn occurs_at(s: Seq<char>, sep: Seq<char>, i: int) -> bool {
    0 <= i && i + sep.len() <= s.len() && s.subrange(i, i + sep.len()) == sep
}

/// The first occurrence of a non-empty `sep` in `s` at or after `i`.
pub open spec fn find_from(s: Seq<char>, sep: Seq<char>, i: int) -> Option<int>
    decreases s.len() - i,
{
    if sep.len() == 0 || i < 0 || i + sep.len() > s.len() {
        None
    } else if occurs_at(s, sep, i) {
        Some(i)
    } else {
        find_from(s, sep, i + 1)
    }
}

pub proof fn lemma_find_from_bounds(s: Seq<char>, sep: Seq<char>, i: int)
    ensures
        find_from(s, sep, i) matches Some(k) ==> i <= k && occurs_at(s, sep, k) && sep.len() > 0,
    decreases s.len() - i,
{
    if !(sep.len() == 0 || i < 0 || i + sep.len() > s.len()) && !occurs_at(s, sep, i) {
        lemma_find_from_bounds(s, sep, i + 1);
    }
}

#[via_fn]
proof fn pieces_of_decreases(s: Seq<char>, sep: Seq<char>) {
    lemma_find_from_bounds(s, sep, 0);
}

/// The pieces of `s` between the occurrences of a non-empty `sep`, found from
/// the left without overlap.
pub open spec fn pieces_of(s: Seq<char>, sep: Seq<char>) -> Seq<Seq<char>>
    decreases s.len(),
    via pieces_of_decreases
{
    match find_from(s, sep, 0) {
        Some(i) => seq![s.take(i)] + pieces_of(s.skip(i + sep.len()), sep),
        None => seq![s],
    }
}

/// Unicode's White_Space characters.
pub open spec fn is_white_space(c: char) -> bool {
    ('\u{9}' <= c && c <= '\u{d}') || c == ' ' || c == '\u{85}' || c == '\u{a0}' || c
        == '\u{1680}' || ('\u{2000}' <= c && c <= '\u{200a}') || c == '\u{2028}' || c
        == '\u{2029}' || c == '\u{202f}' || c == '\u{205f}' || c == '\u{3000}'
}

/// `s` without its leading white space.
pub open spec fn trim_start(s: Seq<char>) -> Seq<char>
    decreases s.len(),
{
    if s.len() > 0 && is_white_space(s[0]) {
        trim_start(s.drop_first())
    } else {
        s
    }
}

/// `s` without its trailing white space.
pub open spec fn trim_end(s: Seq<char>) -> Seq<char>
    decreases s.len(),
{
    if s.len() > 0 && is_white_space(s.last()) {
        trim_end(s.drop_last())
    } else {
        s
    }
}

/// `s` without leading and trailing white space.
pub open spec fn trimmed(s: Seq<char>) -> Seq<char> {
    trim_end(trim_start(s))
}

/// The ASCII lower case of `c`: `A` to `Z` become `a` to `z`.
pub open spec fn ascii_lower(c: char) -> char {
    if 'A' <= c && c <= 'Z' {
        ((c as u32) + 32) as char
    } else {
        c
    }
}

/// `s` mapped to lower case by Unicode's rules.
pub uninterp spec fn lower_of(s: Seq<char>) -> Seq<char>;

/// Relies on `str::split` with a non-empty string pattern: the pieces between
/// the matches, which are found from the left without overlap.
#[verifier::external_body]
fn split_on(s: &str, sep: &str) -> (r: Vec<String>)
    requires
        sep@.len() > 0,
    ensures
        r@.map_values(|p: String| p@) == pieces_of(s@, sep@),
{
    s.split(sep).map(|p| p.to_string()).collect()
}

/// Relies on `str::trim`: `s` without leading and trailing characters of
/// Unicode's White_Space property.
#[verifier::external_body]
pub(crate) fn trim_str(s: &str) -> (r: &str)
    ensures
        r@ == trimmed(s@),
{
    s.trim()
}

/// Unicode's lower case of `s`, which on ASCII text is ASCII's.
pub open spec fn lowered(s: Seq<char>) -> Seq<char> {
    if is_ascii_chars(s) {
        s.map_values(|c: char| ascii_lower(c))
    } else {
        lower_of(s)
    }
}

/// Relies on `str::to_lowercase`: the result depends on `s` alone, and on
/// ASCII text it maps `A` to `Z` to `a` to `z` and keeps the rest.
#[verifier::external_body]
fn lowercase(s: &str) -> (r: String)
    ensures
        is_ascii_chars(s@) ==> r@ == s@.map_values(|c: char| ascii_lower(c)),
        !is_ascii_chars(s@) ==> r@ == lower_of(s@),
{
    s.to_lowercase()
}

/// What `serde_json::from_str` makes of a text: a JSON value, or `None` where
/// the text is not JSON.
pub uninterp spec fn parsed_json(s: Seq<char>) -> Option<serde_json::Value>;

/// Relies on `String::from_utf8`: the bytes are taken as they are where they
/// are valid UTF-8, and refused otherwise.
#[verifier::external_body]
pub(crate) fn string_from_utf8(b: Vec<u8>) -> (r: Result<String, std::string::FromUtf8Error>)
    ensures
        match r {
            Ok(s) => valid_utf8(b@) && s@ == decode_utf8(b@),
            Err(_) => !valid_utf8(b@),
        },
{
    String::from_utf8(b)
}

/// Relies on `serde_json::from_str`, read as a `Value`: the result depends on
/// the text alone.
#[verifier::external_body]
pub(crate) fn json_from_str(s: &str) -> (r: Result<serde_json::Value, serde_json::Error>)
    ensures
        match r {
            Ok(v) => parsed_json(s@) == Some(v),
            Err(_) => parsed_json(s@) is None,
        },
{
    serde_json::from_str(s)
}

/// A message header, as the Language Server Protocol describes it.
#[derive(Debug, PartialEq, Eq, Structural)]
pub enum LspHeader {
    ContentType,
    ContentLength(usize),
}

/// The failures of reading a message.
#[derive(Debug)]
pub enum ParseError {
    Io(String),
    ParseInt(std::num::ParseIntError),
    Utf8(std::string::FromUtf8Error),
    Encoding(String),
    Json(serde_json::Error),
    Unknown(String),
    Empty,
}

/// What a caller can tell of a `ParseError`: its kind, and its message where
/// the library wrote one.
pub enum ErrorShape {
    Io(Seq<char>),
    ParseInt,
    Utf8,
    Encoding(Seq<char>),
    Json,
    Unknown(Seq<char>),
    Empty,
}

pub open spec fn shape_of(e: ParseError) -> ErrorShape {
    match e {
        ParseError::Io(m) => ErrorShape::Io(m@),
        ParseError::ParseInt(_) => ErrorShape::ParseInt,
        ParseError::Utf8(_) => ErrorShape::Utf8,
        ParseError::Encoding(m) => ErrorShape::Encoding(m@),
        ParseError::Json(_) => ErrorShape::Json,
        ParseError::Unknown(m) => ErrorShape::Unknown(m@),
        ParseError::Empty => ErrorShape::Empty,
    }
}

pub open spec fn outcome<T>(r: Result<T, ParseError>) -> Result<T, ErrorShape> {
    match r {
        Ok(v) => Ok(v),
        Err(e) => Err(shape_of(e)),
    }
}

/// The name and value of a header line: the line split at each `": "`, each
/// piece trimmed and lower-cased.
pub open spec fn header_parts(line: Seq<char>) -> Seq<Seq<char>> {
    pieces_of(line, ": "@).map_values(|p: Seq<char>| lowered(trimmed(p)))
}

pub open spec fn is_utf8_label(e: Seq<char>) -> bool {
    e == "utf-8"@ || e == "utf8"@
}

/// What a header line means: a content length, the content type (only UTF-8
/// is admitted), or an error.
pub open spec fn header_spec(line: Seq<char>) -> Result<LspHeader, ErrorShape> {
    let parts = header_parts(line);
    if parts.len() != 2 {
        Err(ErrorShape::Unknown("malformed header: "@ + line))
    } else if parts[0] == "content-type"@ {
        if is_utf8_label(lowered(parts[1])) {
            Ok(LspHeader::ContentType)
        } else {
            Err(ErrorShape::Encoding("Invalid encoding: "@ + parts[1]))
        }
    } else if parts[0] == "content-length"@ {
        match decimal_usize(parts[1]) {
            Some(n) => Ok(LspHeader::ContentLength(n)),
            None => Err(ErrorShape::ParseInt),
        }
    } else {
        Err(ErrorShape::Unknown("Unknown header: "@ + line))
    }
}

/// Given a header line, extracts and validates its name and value.
pub fn parse_header(s: &str) -> (r: Result<LspHeader, ParseError>)
    ensures
        outcome(r) == header_spec(s@),
{
    proof {
        reveal_strlit(": ");
    }
    let raw = split_on(s, ": ");
    let ghost raw_view = raw@.map_values(|p: String| p@);
    let mut split: Vec<String> = Vec::new();
    let mut i: usize = 0;
    while i < raw.len()
        invariant
            i <= raw@.len(),
            raw_view == pieces_of(s@, ": "@),
            raw_view == raw@.map_values(|p: String| p@),
            split@.len() == i,
            forall|j: int| 0 <= j < i ==> #[trigger] split@[j]@ == lowered(trimmed(raw@[j]@)),
        decreases raw@.len() - i,
    {
        let t = trim_str(raw[i].as_str());
        split.push(lowercase(t));
        i += 1;
    }
    let ghost parts = header_parts(s@);
    assert(parts.len() == split@.len());
    assert forall|j: int| 0 <= j < parts.len() implies #[trigger] parts[j] == split@[j]@ by {
        assert(raw_view[j] == raw@[j]@);
    }
    if split.len() != 2 {
        return Err(ParseError::Unknown("malformed header: ".to_owned().concat(s)));
    }
    if split[0] == "content-type".to_owned() {
        let encoding = lowercase(split[1].as_str());
        if encoding == "utf-8".to_owned() || encoding == "utf8".to_owned() {
            Ok(LspHeader::ContentType)
        } else {
            Err(ParseError::Encoding("Invalid encoding: ".to_owned().concat(split[1].as_str())))
        }
    } else if split[0] == "content-length".to_owned() {
        match parse_usize(split[1].as_str()) {
            Ok(n) => Ok(LspHeader::ContentLength(n)),
            Err(e) => Err(ParseError::ParseInt(e)),
        }
    } else {
        Err(ParseError::Unknown("Unknown header: ".to_owned().concat(s)))
    }
}


/// Where a header block stands after one more line.
#[derive(Debug, PartialEq, Eq, Structural)]
pub enum HeaderProgress {
    /// More header lines follow; the content length seen so far.
    Continue(Option<usize>),
    /// The block has ended; the body has this many bytes.
    Body(usize),
}

/// What one header line does to a block that has seen `length` so far. A line
/// that is blank once trimmed ends the block.
pub open spec fn header_line_spec(length: Option<usize>, line: Seq<char>) -> Result<
    HeaderProgress,
    ErrorShape,
> {
    if trimmed(line).len() == 0 {
        match length {
            Some(n) => Ok(HeaderProgress::Body(n)),
            None => Err(ErrorShape::Unknown("missing content-length header: "@ + line)),
        }
    } else {
        match header_spec(line) {
            Ok(LspHeader::ContentLength(n)) => Ok(HeaderProgress::Continue(Some(n))),
            Ok(LspHeader::ContentType) => Ok(HeaderProgress::Continue(length)),
            Err(e) => Err(e),
        }
    }
}

/// Takes one line of a header block, given the content length seen so far.
pub fn next_header(length: Option<usize>, line: &str) -> (r: Result<HeaderProgress, ParseError>)
    ensures
        outcome(r) == header_line_spec(length, line@),
{
    if trim_str(line).is_empty() {
        match length {
            Some(n) => Ok(HeaderProgress::Body(n)),
            None => Err(ParseError::Unknown("missing content-length header: ".to_owned().concat(line))),
        }
    } else {
        match parse_header(line) {
            Ok(LspHeader::ContentLength(n)) => Ok(HeaderProgress::Continue(Some(n))),
            Ok(LspHeader::ContentType) => Ok(HeaderProgress::Continue(length)),
            Err(e) => Err(e),
        }
    }
}

/// What a message body means: UTF-8 text that holds one JSON value.
pub open spec fn body_spec(body: Seq<u8>) -> Result<serde_json::Value, ErrorShape> {
    if !valid_utf8(body) {
        Err(ErrorShape::Utf8)
    } else {
        match parsed_json(decode_utf8(body)) {
            Some(v) => Ok(v),
            None => Err(ErrorShape::Json),
        }
    }
}

/// Decodes a message body.
pub fn decode_body(body: Vec<u8>) -> (r: Result<serde_json::Value, ParseError>)
    ensures
        outcome(r) == body_spec(body@),
{
    match string_from_utf8(body) {
        Ok(text) => match json_from_str(text.as_str()) {
            Ok(v) => Ok(v),
            Err(e) => Err(ParseError::Json(e)),
        },
        Err(e) => Err(ParseError::Utf8(e)),
    }
}


/// The message of the I/O error for a header line that is not UTF-8.
pub const INVALID_LINE: &'static str = "stream did not contain valid UTF-8";

/// The message of the I/O error for a body cut short by the end of the input.
pub const SHORT_BODY: &'static str = "failed to fill whole buffer";

/// The index just past the line that starts at `pos`: past its line feed, or
/// the end of the input where none follows.
pub open spec fn line_end(b: Seq<u8>, pos: int) -> int
    decreases b.len() - pos,
{
    if pos >= b.len() {
        b.len() as int
    } else if b[pos] == 10u8 {
        pos + 1
    } else {
        line_end(b, pos + 1)
    }
}

pub proof fn lemma_line_end_bounds(b: Seq<u8>, pos: int)
    requires
        0 <= pos < b.len(),
    ensures
        pos < line_end(b, pos) <= b.len(),
    decreases b.len() - pos,
{
    if b[pos] != 10u8 {
        if pos + 1 < b.len() {
            lemma_line_end_bounds(b, pos + 1);
        } else {
            assert(line_end(b, pos + 1) == b.len());
        }
    }
}

#[via_fn]
proof fn header_block_decreases(b: Seq<u8>, pos: int, length: Option<usize>) {
    if 0 <= pos < b.len() {
        lemma_line_end_bounds(b, pos);
    }
}

/// Reads a header block from `pos` on: the length of the body and where it
/// starts, or the error that ends the block.
pub open spec fn header_block_spec(b: Seq<u8>, pos: int, length: Option<usize>) -> Result<
    (usize, int),
    ErrorShape,
>
    decreases b.len() - pos,
    when 0 <= pos
    via header_block_decreases
{
    if pos >= b.len() {
        Err(ErrorShape::Empty)
    } else {
        let end = line_end(b, pos);
        let raw = line_at(b, pos);
        if !valid_utf8(raw) {
            Err(ErrorShape::Io(INVALID_LINE@))
        } else {
            match header_line_spec(length, decode_utf8(raw)) {
                Err(e) => Err(e),
                Ok(HeaderProgress::Body(n)) => Ok((n, end)),
                Ok(HeaderProgress::Continue(l)) => header_block_spec(b, end, l),
            }
        }
    }
}

/// The line that starts at `pos`, line feed included.
pub open spec fn line_at(b: Seq<u8>, pos: int) -> Seq<u8> {
    b.subrange(pos, line_end(b, pos))
}

/// The message that starts at `pos`, as a header block and a body.
pub open spec fn message_spec(b: Seq<u8>, pos: int) -> Result<serde_json::Value, ErrorShape> {
    match header_block_spec(b, pos, None) {
        Err(e) => Err(e),
        Ok((n, start)) => if start + n > b.len() {
            Err(ErrorShape::Io(SHORT_BODY@))
        } else {
            body_spec(b.subrange(start, start + n))
        },
    }
}

/// A reader at the end of its input has no message to give: it reports the
/// stream as empty.
pub proof fn lemma_end_of_stream_is_empty(b: Seq<u8>)
    ensures
        message_spec(b, b.len() as int) == Err::<serde_json::Value, ErrorShape>(ErrorShape::Empty),
{
}

/// Where the message that starts at `pos` ends, where it is read whole.
pub open spec fn message_end(b: Seq<u8>, pos: int) -> int {
    match header_block_spec(b, pos, None) {
        Ok((n, start)) => start + n,
        Err(_) => pos,
    }
}

/// A stream of bytes held in memory, read from the front.
pub struct ByteReader {
    data: Vec<u8>,
    pos: usize,
}

impl ByteReader {
    /// All the bytes of the stream, read or not.
    pub closed spec fn bytes(&self) -> Seq<u8> {
        self.data@
    }

    /// How many bytes have been read.
    pub closed spec fn position(&self) -> int {
        self.pos as int
    }

    #[verifier::type_invariant]
    spec fn inv(&self) -> bool {
        self.pos <= self.data@.len()
    }

    pub fn new(data: Vec<u8>) -> (r: ByteReader)
        ensures
            r.bytes() == data@,
            r.position() == 0,
    {
        ByteReader { data, pos: 0 }
    }

    /// Reads the next line, line feed included; `None` at the end of the input.
    fn read_line(&mut self) -> (r: Option<Result<String, ParseError>>)
        ensures
            final(self).bytes() == old(self).bytes(),
            old(self).position() >= old(self).bytes().len() ==> r is None && final(self).position()
                == old(self).position(),
            old(self).position() < old(self).bytes().len() ==> {
                let raw = line_at(old(self).bytes(), old(self).position());
                &&& final(self).position() == line_end(old(self).bytes(), old(self).position())
                &&& valid_utf8(raw) ==> (r matches Some(Ok(s)) && s@ == decode_utf8(raw))
                &&& !valid_utf8(raw) ==> (r matches Some(Err(e)) && shape_of(e) == ErrorShape::Io(
                    INVALID_LINE@,
                ))
            },
    {
        proof {
            use_type_invariant(&*self);
        }
        let start = self.pos;
        if start >= self.data.len() {
            return None;
        }
        let ghost b = self.data@;
        let mut line: Vec<u8> = Vec::new();
        let mut i: usize = start;
        loop
            invariant_except_break
                line_end(b, start as int) == line_end(b, i as int),
            invariant
                b == self.data@,
                start <= i <= b.len(),
                line@ == b.subrange(start as int, i as int),
            ensures
                line@ == b.subrange(start as int, i as int),
                i == line_end(b, start as int),
            decreases b.len() - i,
        {
            if i >= self.data.len() {
                break;
            }
            let c = self.data[i];
            line.push(c);
            i += 1;
            assert(line@ == b.subrange(start as int, i as int));
            if c == 10u8 {
                break;
            }
        }
        self.pos = i;
        match string_from_utf8(line) {
            Ok(s) => Some(Ok(s)),
            Err(_) => Some(Err(ParseError::Io(INVALID_LINE.to_owned()))),
        }
    }

    /// Reads exactly `n` bytes; where fewer are left, takes them all and gives
    /// `None`.
    fn read_exact(&mut self, n: usize) -> (r: Option<Vec<u8>>)
        ensures
            final(self).bytes() == old(self).bytes(),
            old(self).position() + n <= old(self).bytes().len() ==> (r matches Some(v) && v@
                == old(self).bytes().subrange(
                old(self).position(),
                old(self).position() + n,
            ) && final(self).position() == old(self).position() + n),
            old(self).position() + n > old(self).bytes().len() ==> (r is None
                && final(self).position() == old(self).bytes().len()),
    {
        proof {
            use_type_invariant(&*self);
        }
        let start = self.pos;
        if self.data.len() - start < n {
            self.pos = self.data.len();
            return None;
        }
        let ghost b = self.data@;
        let end = start + n;
        let mut body: Vec<u8> = Vec::new();
        let mut i: usize = start;
        while i < end
            invariant
                b == self.data@,
                end == start + n <= b.len(),
                start <= i <= end,
                body@ == b.subrange(start as int, i as int),
            decreases end - i,
        {
            body.push(self.data[i]);
            i += 1;
        }
        self.pos = end;
        Some(body)
    }
}

/// Reads one Language Server Protocol message from `reader`: a header block,
/// then exactly as many bytes of JSON as its content length gives.
pub fn read_message(reader: &mut ByteReader) -> (r: Result<serde_json::Value, ParseError>)
    ensures
        final(reader).bytes() == old(reader).bytes(),
        outcome(r) == message_spec(old(reader).bytes(), old(reader).position()),
        r is Ok ==> final(reader).position() == message_end(
            old(reader).bytes(),
            old(reader).position(),
        ),
{
    proof {
        use_type_invariant(&*reader);
    }
    let ghost b = reader.bytes();
    let ghost p0 = reader.position();
    let mut content_length: Option<usize> = None;
    let length: usize;
    loop
        invariant_except_break
            header_block_spec(b, reader.position(), content_length) == header_block_spec(
                b,
                p0,
                None,
            ),
        invariant
            b == old(reader).bytes(),
            p0 == old(reader).position(),
            reader.bytes() == b,
            0 <= p0 <= reader.position() <= b.len(),
        ensures
            header_block_spec(b, p0, None) == Ok::<(usize, int), ErrorShape>(
                (length, reader.position()),
            ),
        decreases b.len() - reader.position(),
    {
        proof {
            use_type_invariant(&*reader);
            if reader.position() < b.len() {
                lemma_line_end_bounds(b, reader.position());
            }
        }
        let line = match reader.read_line() {
            None => {
                return Err(ParseError::Empty);
            },
            Some(Err(e)) => {
                return Err(e);
            },
            Some(Ok(l)) => l,
        };
        match next_header(content_length, line.as_str()) {
            Err(e) => {
                return Err(e);
            },
            Ok(HeaderProgress::Continue(l)) => {
                content_length = l;
            },
            Ok(HeaderProgress::Body(n)) => {
                length = n;
                break ;
            },
        }
    }
    match reader.read_exact(length) {
        None => Err(ParseError::Io(SHORT_BODY.to_owned())),
        Some(body) => decode_body(body),
    }
}

} // verus!
