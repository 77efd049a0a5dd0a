//! From arbitrarily chunked bytes to complete lines.
//!
//! The chunks of a streamed body are not aligned to lines: bytes wait in a
//! buffer until a newline completes them.
use vstd::prelude::*;
use vstd::string::*;
use vstd::utf8::{decode_utf8, encode_utf8, encode_utf8_decode_utf8, valid_utf8};

verus! {

/// What std writes of the error that `core::str::from_utf8` gives on bytes
/// that are not UTF-8.
pub uninterp spec fn utf8_complaint(bytes: Seq<u8>) -> Seq<char>;

/// `core::str::from_utf8`: succeeds exactly on valid UTF-8, and the text is
/// then the one that the bytes encode. On other bytes the error, as `Display`
/// writes it, is a function of the bytes; its words are left unsaid.
#[verifier::external_body]
fn decode(bytes: &[u8]) -> (r: Result<String, String>)
    ensures
        match r {
            Ok(text) => valid_utf8(bytes@) && encode_utf8(text@) == bytes@,
            Err(words) => !valid_utf8(bytes@) && words@ == utf8_complaint(bytes@),
        },
{
    match core::str::from_utf8(bytes) {
        Ok(text) => Ok(text.to_string()),
        Err(e) => Err(e.to_string()),
    }
}

/// A line that is not UTF-8.
#[derive(Debug, Clone, PartialEq, Eq)]
pub struct InvalidUtf8 {
    /// What is wrong with it.
    pub message: String,
}

/// Bytes without a final carriage return.
pub open spec fn without_cr(bytes: Seq<u8>) -> Seq<u8> {
    if bytes.len() > 0 && bytes.last() == 13 {
        bytes.drop_last()
    } else {
        bytes
    }
}

/// Where the first newline stands.
pub open spec fn newline(bytes: Seq<u8>) -> Option<int>
    decreases bytes.len(),
{
    if bytes.len() == 0 {
        None
    } else if bytes[0] == 10 {
        Some(0)
    } else {
        match newline(bytes.skip(1)) {
            Some(i) => Some(i + 1),
            None => None,
        }
    }
}

/// Whether `r` is the text of a line, or the complaint about it.
pub open spec fn is_text_of(r: Result<Option<String>, InvalidUtf8>, line: Seq<u8>) -> bool {
    match r {
        Ok(Some(text)) => valid_utf8(line) && text@ == decode_utf8(line),
        Ok(None) => false,
        Err(e) => !valid_utf8(line) && e.message@ == utf8_complaint(line),
    }
}

/// The first newline is one, and none stands before it.
pub proof fn lemma_newline(bytes: Seq<u8>)
    ensures
        match newline(bytes) {
            Some(i) => 0 <= i < bytes.len() && bytes[i] == 10 && forall|j: int|
                0 <= j < i ==> bytes[j] != 10,
            None => forall|j: int| 0 <= j < bytes.len() ==> bytes[j] != 10,
        },
    decreases bytes.len(),
{
    if bytes.len() > 0 && bytes[0] != 10 {
        let rest = bytes.skip(1);
        lemma_newline(rest);
        match newline(rest) {
            Some(i) => {
                assert(bytes[i + 1] == rest[i]);
                assert forall|j: int| 0 <= j < i + 1 implies bytes[j] != 10 by {
                    if j > 0 {
                        assert(rest[j - 1] == bytes[j]);
                    }
                }
            },
            None => {
                assert forall|j: int| 0 <= j < bytes.len() implies bytes[j] != 10 by {
                    if j > 0 {
                        assert(rest[j - 1] == bytes[j]);
                    }
                }
            },
        }
    }
}

/// The first newline is where a newline is preceded by none.
pub proof fn lemma_newline_is(bytes: Seq<u8>, i: int)
    requires
        0 <= i <= bytes.len(),
        forall|j: int| 0 <= j < i ==> bytes[j] != 10,
        i < bytes.len() ==> bytes[i] == 10,
    ensures
        newline(bytes) == if i < bytes.len() {
            Some(i)
        } else {
            None
        },
{
    lemma_newline(bytes);
    match newline(bytes) {
        Some(k) => {
            assert(bytes[k] == 10);
        },
        None => {},
    }
}

/// A buffer that turns chunks of bytes into lines.
#[derive(Debug)]
pub struct LineDecoder {
    buf: Vec<u8>,
}

impl View for LineDecoder {
    type V = Seq<u8>;

    /// The bytes that wait for a newline.
    closed spec fn view(&self) -> Seq<u8> {
        self.buf@
    }
}

impl Default for LineDecoder {
    fn default() -> (decoder: Self)
        ensures
            decoder@ == Seq::<u8>::empty(),
    {
        LineDecoder { buf: Vec::new() }
    }
}

/// The text of a line, its carriage return cut off.
fn line_text(bytes: &[u8]) -> (r: Result<Option<String>, InvalidUtf8>)
    ensures
        is_text_of(r, without_cr(bytes@)),
{
    let line: &[u8] = if bytes.len() > 0 && bytes[bytes.len() - 1] == 13 {
        assert(bytes@.drop_last() =~= bytes@.subrange(0, bytes@.len() - 1));
        vstd::slice::slice_subrange(bytes, 0, bytes.len() - 1)
    } else {
        bytes
    };
    match decode(line) {
        Ok(text) => {
            proof {
                encode_utf8_decode_utf8(text@);
            }
            Ok(Some(text))
        },
        Err(message) => Err(InvalidUtf8 { message }),
    }
}

impl LineDecoder {
    /// An empty decoder.
    pub fn new() -> (decoder: Self)
        ensures
            decoder@ == Seq::<u8>::empty(),
    {
        LineDecoder { buf: Vec::new() }
    }

    /// Appends bytes.
    pub fn push(&mut self, bytes: &[u8])
        ensures
            final(self)@ == old(self)@ + bytes@,
    {
        self.buf.extend_from_slice(bytes);
        assert(self.buf@ =~= old(self)@ + bytes@);
    }

    /// Takes the next complete line off the buffer, without its newline and a
    /// carriage return before it. `None` if no line is complete yet.
    pub fn next_line(&mut self) -> (r: Result<Option<String>, InvalidUtf8>)
        ensures
            match newline(old(self)@) {
                None => r == Ok::<Option<String>, InvalidUtf8>(None) && final(self)@ == old(self)@,
                Some(i) => {
                    &&& is_text_of(r, without_cr(old(self)@.take(i)))
                    &&& final(self)@ == old(self)@.skip(i + 1)
                },
            },
    {
        let mut i: usize = 0;
        while i < self.buf.len() && self.buf[i] != 10
            invariant
                i <= self.buf@.len(),
                self.buf@ == old(self)@,
                forall|j: int| 0 <= j < i ==> self.buf@[j] != 10,
            decreases self.buf@.len() - i,
        {
            i += 1;
        }
        proof {
            lemma_newline_is(self.buf@, i as int);
        }
        if i == self.buf.len() {
            return Ok(None);
        }
        let rest: Vec<u8> = self.buf.split_off(i + 1);
        assert(rest@ =~= old(self)@.skip(i + 1));
        let line: &[u8] = vstd::slice::slice_subrange(self.buf.as_slice(), 0, i);
        assert(line@ =~= old(self)@.take(i as int));
        let r: Result<Option<String>, InvalidUtf8> = line_text(line);
        self.buf = rest;
        r
    }

    /// Takes what is left after the stream has ended as one last line. `None`
    /// if nothing is left.
    pub fn finish(&mut self) -> (r: Result<Option<String>, InvalidUtf8>)
        ensures
            final(self)@ == Seq::<u8>::empty(),
            if old(self)@.len() == 0 {
                r == Ok::<Option<String>, InvalidUtf8>(None)
            } else {
                is_text_of(r, without_cr(old(self)@))
            },
    {
        if self.buf.len() == 0 {
            assert(self.buf@ =~= Seq::empty());
            return Ok(None);
        }
        let r: Result<Option<String>, InvalidUtf8> = line_text(self.buf.as_slice());
        self.buf = Vec::new();
        r
    }
}

/// The complete lines of a stream of bytes.
pub open spec fn complete_lines(bytes: Seq<u8>) -> Seq<Seq<u8>>
    decreases bytes.len(),
{
    match newline(bytes) {
        Some(i) => if 0 <= i < bytes.len() {
            seq![without_cr(bytes.take(i))] + complete_lines(bytes.skip(i + 1))
        } else {
            Seq::empty()
        },
        None => Seq::empty(),
    }
}

/// What stands behind the last newline of a stream of bytes.
pub open spec fn incomplete_line(bytes: Seq<u8>) -> Seq<u8>
    decreases bytes.len(),
{
    match newline(bytes) {
        Some(i) => if 0 <= i < bytes.len() {
            incomplete_line(bytes.skip(i + 1))
        } else {
            bytes
        },
        None => bytes,
    }
}

/// How a stream is cut into chunks does not matter: the lines of the whole are
/// those of the first part, then those of what it left over together with the
/// second part.
pub proof fn law_chunking_is_invisible(first: Seq<u8>, second: Seq<u8>)
    ensures
        complete_lines(first + second) == complete_lines(first) + complete_lines(
            incomplete_line(first) + second,
        ),
        incomplete_line(first + second) == incomplete_line(incomplete_line(first) + second),
    decreases first.len(),
{
    let whole = first + second;
    lemma_newline(first);
    match newline(first) {
        None => {
            assert(complete_lines(first) + complete_lines(whole) =~= complete_lines(whole));
        },
        Some(i) => {
            lemma_newline_is(whole, i);
            assert(whole.take(i) =~= first.take(i));
            assert(whole.skip(i + 1) =~= first.skip(i + 1) + second);
            law_chunking_is_invisible(first.skip(i + 1), second);
            let line = seq![without_cr(first.take(i))];
            let early = complete_lines(first.skip(i + 1));
            let late = complete_lines(incomplete_line(first) + second);
            assert(line + (early + late) =~= (line + early) + late);
        },
    }
}

/// A line and a newline before a stream make one more line of it, without the
/// carriage return it may end in; bytes without a newline make none yet and
/// wait.
pub proof fn law_a_line_ends_at_its_newline(line: Seq<u8>, rest: Seq<u8>)
    requires
        forall|i: int| 0 <= i < line.len() ==> line[i] != 10,
    ensures
        complete_lines(line + seq![10u8] + rest) == seq![
            if line.len() > 0 && line[line.len() - 1] == 13 {
                line.take(line.len() - 1)
            } else {
                line
            },
        ] + complete_lines(rest),
        incomplete_line(line + seq![10u8] + rest) == incomplete_line(rest),
        complete_lines(line) == Seq::<Seq<u8>>::empty(),
        incomplete_line(line) == line,
{
    let n = line.len() as int;
    let s = line + seq![10u8] + rest;
    assert(s[n] == 10);
    assert forall|j: int| 0 <= j < n implies s[j] != 10 by {
        assert(s[j] == line[j]);
    }
    lemma_newline_is(s, n);
    assert(s.take(n) =~= line);
    assert(s.skip(n + 1) =~= rest);
    assert(line.drop_last() =~= line.take(line.len() - 1));
    lemma_newline(line);
}

} // verus!
