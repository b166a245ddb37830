//! Document codec: wraps a table's encoded pairs in the tagged, JSON-like
//! document text, and parses such text back into a table.
//!
//! The document is a flat object: a `filetype` tag (optional on input,
//! always written on output), a `version` number (required on input), and
//! one string member per table entry, in order.  On output a blank line
//! follows the header block — a convention of the tooling this format
//! belongs to — and on input the blank line may or may not be present.

use vstd::prelude::*;

use crate::color::{RGB, color_chars, color_decoded};
use crate::key::{EntryKey, KeyModel, digit_val, key_chars, key_decoded, key_valid};
use crate::table::{
    PlayerColorParam, keys_unique, keys_valid, pair_index, pair_insert, table_insert,
    lemma_pair_index_first_match, lemma_pair_index_push_absent, lemma_table_insert_wf,
};
use crate::text::{push_char, str_eq, str_to_chars};

verus! {

/// The fixed version stamp written into every serialized document.
pub const API_VERSION: u32 = 260218;

/// The document text was not a well-formed document, or its required
/// `version` member was missing.
#[derive(Clone, Copy, PartialEq, Eq, Structural, Debug)]
pub struct ParseError;

/// The table could not be rendered as document text.  Unreachable for
/// tables of valid keys: serialization never fails on them.
#[derive(Clone, Copy, PartialEq, Eq, Structural, Debug)]
pub struct SerializationError;

/// The fixed document tag, `PlayerColorParam`.
pub fn api_filetype() -> (r: String)
    ensures
        r@ == "PlayerColorParam"@,
{
    "PlayerColorParam".to_owned()
}

// ---------------------------------------------------------------------------
// Serialization: the exact document text of a table.
// ---------------------------------------------------------------------------

/// The first line of every document.
pub open spec fn doc_line0() -> Seq<char> {
    "{"@
}

/// The second line: the filetype tag.
pub open spec fn doc_line1() -> Seq<char> {
    "  \"filetype\": \"PlayerColorParam\","@
}

/// The third line: the version stamp, with a trailing comma exactly when
/// entries follow.
pub open spec fn doc_line2(trailing_comma: bool) -> Seq<char> {
    if trailing_comma {
        "  \"version\": 260218,"@
    } else {
        "  \"version\": 260218"@
    }
}

/// One entry line: the encoded key and the encoded color, quoted.
pub open spec fn entry_line(k: KeyModel, c: RGB) -> Seq<char> {
    "  \""@ + key_chars(k) + "\": \""@ + color_chars(c) + "\""@
}

/// The entry lines joined by `,` and a line break.
pub open spec fn entries_text(s: Seq<(KeyModel, RGB)>) -> Seq<char>
    decreases s.len(),
{
    if s.len() == 0 {
        Seq::empty()
    } else if s.len() == 1 {
        entry_line(s[0].0, s[0].1)
    } else {
        entry_line(s[0].0, s[0].1) + ",\n"@ + entries_text(s.drop_first())
    }
}

/// The whole document text for a table: header block, the blank line, the
/// entry lines, and the closing brace.  There is no trailing line break.
pub open spec fn doc_text(s: Seq<(KeyModel, RGB)>) -> Seq<char> {
    if s.len() == 0 {
        doc_line0() + "\n"@ + doc_line1() + "\n"@ + doc_line2(false) + "\n"@ + "\n"@ + "}"@
    } else {
        doc_line0() + "\n"@ + doc_line1() + "\n"@ + doc_line2(true) + "\n"@ + "\n"@
            + entries_text(s) + "\n"@ + "}"@
    }
}

/// Appending one entry extends the joined entry text by a separator and
/// the entry's line.
proof fn lemma_entries_text_push(s: Seq<(KeyModel, RGB)>, p: (KeyModel, RGB))
    ensures
        entries_text(s.push(p)) == if s.len() == 0 {
            entry_line(p.0, p.1)
        } else {
            entries_text(s) + ",\n"@ + entry_line(p.0, p.1)
        },
    decreases s.len(),
{
    if s.len() == 0 {
        assert(s.push(p).len() == 1);
        assert(s.push(p)[0] == p);
    } else {
        assert(s.push(p).drop_first() =~= s.drop_first().push(p));
        lemma_entries_text_push(s.drop_first(), p);
        if s.len() == 1 {
            assert(entries_text(s) == entry_line(s[0].0, s[0].1));
        }
        assert(s.push(p)[0] == s[0]);
    }
}

/// Appends one entry line to the output.
fn append_entry_line(out: &mut String, key: &EntryKey, color: &RGB)
    requires
        key.valid(),
    ensures
        final(out)@ == old(out)@ + entry_line(key@, *color),
{
    out.append("  \"");
    let ks = crate::key::key_to_string(key);
    out.append(ks.as_str());
    out.append("\": \"");
    let cs = color.to_hex_str(true);
    out.append(cs.as_str());
    out.append("\"");
    proof {
        assert(out@ =~= old(out)@ + entry_line(key@, *color));
    }
}

/// Serializes a table as document text: the tag line, the version line,
/// the blank line the tooling expects, then one line per entry in table
/// order.  Serialization cannot fail on a well-formed table; the result is
/// always `Ok`.
pub fn to_json(param: &PlayerColorParam) -> (r: Result<String, SerializationError>)
    requires
        param.wf(),
    ensures
        r matches Ok(s) && s@ == doc_text(param@),
{
    let mut out = String::new();
    out.append("{");
    out.append("\n");
    out.append("  \"filetype\": \"PlayerColorParam\",");
    out.append("\n");
    let n = param.entries.len();
    if n == 0 {
        out.append("  \"version\": 260218");
        out.append("\n");
        out.append("\n");
        out.append("}");
        proof {
            assert(out@ =~= doc_text(param@));
        }
        return Ok(out);
    }
    out.append("  \"version\": 260218,");
    out.append("\n");
    out.append("\n");
    let ghost header = out@;
    proof {
        assert(param@.take(0) =~= Seq::<(KeyModel, RGB)>::empty());
        assert(out@ =~= header + entries_text(param@.take(0)));
    }
    let mut i: usize = 0;
    while i < n
        invariant
            param.wf(),
            n == param@.len(),
            i <= n,
            out@ == header + entries_text(param@.take(i as int)),
            header == doc_line0() + "\n"@ + doc_line1() + "\n"@ + doc_line2(true) + "\n"@
                + "\n"@,
        decreases n - i,
    {
        if i > 0 {
            out.append(",\n");
        }
        proof {
            assert(param@[i as int].0 == param.entries@[i as int].0@);
        }
        append_entry_line(&mut out, &param.entries[i].0, &param.entries[i].1);
        proof {
            assert(param@.take(i as int).push(param@[i as int]) =~= param@.take(i as int + 1));
            lemma_entries_text_push(param@.take(i as int), param@[i as int]);
            assert(out@ =~= header + entries_text(param@.take(i as int + 1)));
        }
        i = i + 1;
    }
    out.append("\n");
    out.append("}");
    proof {
        assert(param@.take(n as int) =~= param@);
        assert(out@ =~= doc_text(param@));
    }
    Ok(out)
}

// ---------------------------------------------------------------------------
// Parsing: a character-by-character state machine over the document text.
// ---------------------------------------------------------------------------

/// The parser's position in the document grammar.
#[derive(Clone, Copy, PartialEq, Eq, Structural, Debug)]
pub enum ParseTag {
    /// Before the opening brace.
    Start,
    /// After the opening brace: a member key or the closing brace.
    ExpectFirstKey,
    /// Inside a member key.
    InKey,
    /// After a member key: the colon.
    ExpectColon,
    /// After the colon: a string or number value.
    ExpectValue,
    /// Inside a string value.
    InStr,
    /// Inside a number value.
    InNum,
    /// After a member: a comma or the closing brace.
    MemberDone,
    /// After a comma: the next member key.
    ExpectKey,
    /// After the closing brace: only whitespace may follow.
    AfterEnd,
    /// The text is not a well-formed document.
    Fail,
}

/// The parser's whole state: position, the member being read, and the
/// document gathered so far.
#[verifier::ext_equal]
pub ghost struct ParseState {
    pub tag: ParseTag,
    pub key: Seq<char>,
    pub sval: Seq<char>,
    pub num: nat,
    pub filetype: Option<Seq<char>>,
    pub version: Option<u32>,
    pub entries: Seq<(Seq<char>, Seq<char>)>,
}

/// Whitespace between document tokens.
pub open spec fn is_ws(c: char) -> bool {
    c == ' ' || c == '\n' || c == '\t' || c == '\r'
}

/// A character accepted inside a quoted string: anything but the quote,
/// the backslash, and control characters.  Escape sequences are not part
/// of this document format; a backslash makes the document ill-formed.
pub open spec fn plain_char(c: char) -> bool {
    c != '"' && c != '\\' && c as u32 >= 32
}

/// The state every ill-formed document ends in.
pub open spec fn fail(st: ParseState) -> ParseState {
    ParseState { tag: ParseTag::Fail, ..st }
}

/// Files a finished string member: `filetype` takes the tag (once), a
/// `version` string value is ill-formed, and any other key is an entry,
/// last write winning.
pub open spec fn commit_str(st: ParseState) -> ParseState {
    if st.key == "filetype"@ {
        if st.filetype is None {
            ParseState { tag: ParseTag::MemberDone, filetype: Some(st.sval), ..st }
        } else {
            fail(st)
        }
    } else if st.key == "version"@ {
        fail(st)
    } else {
        ParseState {
            tag: ParseTag::MemberDone,
            entries: pair_insert(st.entries, st.key, st.sval),
            ..st
        }
    }
}

/// Files a finished number member: only `version` may hold a number, only
/// once, and only one that fits the version's width.
pub open spec fn commit_num(st: ParseState, next: ParseTag) -> ParseState {
    if st.key == "version"@ && st.version is None && st.num <= u32::MAX {
        ParseState { tag: next, version: Some(st.num as u32), ..st }
    } else {
        fail(st)
    }
}

/// One step of the parser on one character.
pub open spec fn step(st: ParseState, c: char) -> ParseState {
    match st.tag {
        ParseTag::Start => if is_ws(c) {
            st
        } else if c == '{' {
            ParseState { tag: ParseTag::ExpectFirstKey, ..st }
        } else {
            fail(st)
        },
        ParseTag::ExpectFirstKey => if is_ws(c) {
            st
        } else if c == '"' {
            ParseState { tag: ParseTag::InKey, key: Seq::empty(), ..st }
        } else if c == '}' {
            ParseState { tag: ParseTag::AfterEnd, ..st }
        } else {
            fail(st)
        },
        ParseTag::InKey => if c == '"' {
            ParseState { tag: ParseTag::ExpectColon, ..st }
        } else if plain_char(c) {
            ParseState { key: st.key.push(c), ..st }
        } else {
            fail(st)
        },
        ParseTag::ExpectColon => if is_ws(c) {
            st
        } else if c == ':' {
            ParseState { tag: ParseTag::ExpectValue, ..st }
        } else {
            fail(st)
        },
        ParseTag::ExpectValue => if is_ws(c) {
            st
        } else if c == '"' {
            ParseState { tag: ParseTag::InStr, sval: Seq::empty(), ..st }
        } else if digit_val(c) is Some {
            ParseState { tag: ParseTag::InNum, num: digit_val(c)->Some_0 as nat, ..st }
        } else {
            fail(st)
        },
        ParseTag::InStr => if c == '"' {
            commit_str(st)
        } else if plain_char(c) {
            ParseState { sval: st.sval.push(c), ..st }
        } else {
            fail(st)
        },
        ParseTag::InNum => if digit_val(c) is Some {
            ParseState { num: st.num * 10 + digit_val(c)->Some_0 as nat, ..st }
        } else if is_ws(c) {
            commit_num(st, ParseTag::MemberDone)
        } else if c == ',' {
            commit_num(st, ParseTag::ExpectKey)
        } else if c == '}' {
            commit_num(st, ParseTag::AfterEnd)
        } else {
            fail(st)
        },
        ParseTag::MemberDone => if is_ws(c) {
            st
        } else if c == ',' {
            ParseState { tag: ParseTag::ExpectKey, ..st }
        } else if c == '}' {
            ParseState { tag: ParseTag::AfterEnd, ..st }
        } else {
            fail(st)
        },
        ParseTag::ExpectKey => if is_ws(c) {
            st
        } else if c == '"' {
            ParseState { tag: ParseTag::InKey, key: Seq::empty(), ..st }
        } else {
            fail(st)
        },
        ParseTag::AfterEnd => if is_ws(c) {
            st
        } else {
            fail(st)
        },
        ParseTag::Fail => st,
    }
}

/// The state the parser begins in.
pub open spec fn init_state() -> ParseState {
    ParseState {
        tag: ParseTag::Start,
        key: Seq::empty(),
        sval: Seq::empty(),
        num: 0,
        filetype: None,
        version: None,
        entries: Seq::empty(),
    }
}

/// The parser run over a whole character sequence.
pub open spec fn run(st: ParseState, s: Seq<char>) -> ParseState
    decreases s.len(),
{
    if s.len() == 0 {
        st
    } else {
        run(step(st, s[0]), s.drop_first())
    }
}

/// The parsed document, if the text is one: the run must consume the whole
/// text without failing, end after the closing brace, and have seen the
/// required `version` member.  A missing `filetype` is fine — the tag
/// defaults and is not observable in the resulting table.
pub open spec fn parse_doc(s: Seq<char>) -> Option<ParseState> {
    let f = run(init_state(), s);
    if f.tag == ParseTag::AfterEnd && f.version is Some {
        Some(f)
    } else {
        None
    }
}

/// The table decoded from a parsed document's entries, in document order:
/// an entry whose key or color fails to decode is silently dropped, the
/// others are inserted in order, last write winning per key.
pub open spec fn table_from_entries(es: Seq<(Seq<char>, Seq<char>)>) -> Seq<(KeyModel, RGB)>
    decreases es.len(),
{
    if es.len() == 0 {
        Seq::empty()
    } else {
        let t = table_from_entries(es.drop_last());
        match (key_decoded(es.last().0), color_decoded(es.last().1)) {
            (Some(k), Some(c)) => table_insert(t, k, c),
            _ => t,
        }
    }
}

/// Extending a run by one character steps the final state once.
pub proof fn lemma_run_push(st: ParseState, s: Seq<char>, c: char)
    ensures
        run(st, s.push(c)) == step(run(st, s), c),
    decreases s.len(),
{
    if s.len() == 0 {
        assert(s.push(c)[0] == c);
        assert(s.push(c).drop_first() =~= Seq::<char>::empty());
        assert(run(st, s.push(c)) == run(step(st, c), s.push(c).drop_first()));
        assert(run(step(st, c), Seq::<char>::empty()) == step(st, c));
        assert(run(st, s) == st);
    } else {
        assert(s.push(c).drop_first() =~= s.drop_first().push(c));
        assert(s.push(c)[0] == s[0]);
        lemma_run_push(step(st, s[0]), s.drop_first(), c);
        assert(run(st, s.push(c)) == run(step(st, s[0]), s.drop_first().push(c)));
        assert(run(st, s) == run(step(st, s[0]), s.drop_first()));
    }
}

/// A run over concatenated text is the run over the first part continued
/// over the second.
pub proof fn lemma_run_concat(st: ParseState, a: Seq<char>, b: Seq<char>)
    ensures
        run(st, a + b) == run(run(st, a), b),
    decreases a.len(),
{
    if a.len() == 0 {
        assert(a + b =~= b);
    } else {
        assert((a + b).drop_first() =~= a.drop_first() + b);
        assert((a + b)[0] == a[0]);
        lemma_run_concat(step(st, a[0]), a.drop_first(), b);
    }
}

/// The raw members of an executable entry vector.
pub open spec fn raw_entries_view(es: Seq<(String, String)>) -> Seq<(Seq<char>, Seq<char>)> {
    Seq::new(es.len(), |i: int| (es[i].0@, es[i].1@))
}

/// Files a raw entry in the executable entry vector, last write winning.
fn raw_insert_exec(entries: &mut Vec<(String, String)>, k: &String, v: &String)
    ensures
        raw_entries_view(final(entries)@) == pair_insert(raw_entries_view(old(entries)@), k@, v@),
{
    let n = entries.len();
    let mut i: usize = 0;
    while i < n
        invariant
            *entries == *old(entries),
            n == entries@.len(),
            i <= n,
            forall|j: int| 0 <= j < i ==> raw_entries_view(entries@)[j].0 != k@,
        decreases n - i,
    {
        if str_eq(entries[i].0.as_str(), k.as_str()) {
            proof {
                lemma_pair_index_first_match(raw_entries_view(entries@), k@, i as int);
            }
            entries[i] = (k.clone(), v.clone());
            proof {
                assert(raw_entries_view(entries@) =~= pair_insert(
                    raw_entries_view(old(entries)@),
                    k@,
                    v@,
                ));
            }
            return ;
        }
        i = i + 1;
    }
    proof {
        lemma_pair_index_first_match(raw_entries_view(entries@), k@, n as int);
    }
    entries.push((k.clone(), v.clone()));
    proof {
        assert(raw_entries_view(entries@) =~= pair_insert(
            raw_entries_view(old(entries)@),
            k@,
            v@,
        ));
    }
}

/// The executable parser state.  The number member is carried as a 64-bit
/// value beside a flag for values too wide for the version field; the
/// ghost field holds the exact mathematical value.
struct Parser {
    tag: ParseTag,
    key: String,
    sval: String,
    num: u64,
    too_wide: bool,
    gnum: Ghost<nat>,
    filetype: Option<String>,
    version: Option<u32>,
    entries: Vec<(String, String)>,
}

impl Parser {
    /// The parser state this executable state stands for.
    spec fn view(&self) -> ParseState {
        ParseState {
            tag: self.tag,
            key: self.key@,
            sval: self.sval@,
            num: self.gnum@,
            filetype: match self.filetype {
                Some(t) => Some(t@),
                None => None,
            },
            version: self.version,
            entries: raw_entries_view(self.entries@),
        }
    }

    /// The number accumulator tracks the exact value while it fits the
    /// version's width, and the flag records when it no longer does.
    spec fn wf(&self) -> bool {
        &&& (self.too_wide <==> self.gnum@ > u32::MAX)
        &&& (!self.too_wide ==> self.num == self.gnum@)
    }

    /// A parser at the beginning of a document.
    fn init() -> (p: Parser)
        ensures
            p@ == init_state(),
            p.wf(),
    {
        let p = Parser {
            tag: ParseTag::Start,
            key: String::new(),
            sval: String::new(),
            num: 0,
            too_wide: false,
            gnum: Ghost(0),
            filetype: None,
            version: None,
            entries: Vec::new(),
        };
        proof {
            assert(raw_entries_view(p.entries@) =~= Seq::<(Seq<char>, Seq<char>)>::empty());
            assert(p@ =~~= init_state());
        }
        p
    }

    /// Files a finished string member, as `commit_str` says.
    fn commit_str_exec(&mut self)
        requires
            old(self)@.tag == ParseTag::InStr,
            old(self).wf(),
        ensures
            final(self)@ == commit_str(old(self)@),
            final(self).wf(),
    {
        if str_eq(self.key.as_str(), "filetype") {
            if self.filetype.is_none() {
                self.filetype = Some(self.sval.clone());
                self.tag = ParseTag::MemberDone;
            } else {
                self.tag = ParseTag::Fail;
            }
        } else if str_eq(self.key.as_str(), "version") {
            self.tag = ParseTag::Fail;
        } else {
            let k = self.key.clone();
            let v = self.sval.clone();
            raw_insert_exec(&mut self.entries, &k, &v);
            self.tag = ParseTag::MemberDone;
        }
        proof {
            assert(self@ =~~= commit_str(old(self)@));
        }
    }

    /// Files a finished number member, as `commit_num` says.
    fn commit_num_exec(&mut self, next: ParseTag)
        requires
            old(self)@.tag == ParseTag::InNum,
            old(self).wf(),
        ensures
            final(self)@ == commit_num(old(self)@, next),
            final(self).wf(),
    {
        if !self.too_wide && str_eq(self.key.as_str(), "version") && self.version.is_none() {
            self.version = Some(self.num as u32);
            self.tag = next;
        } else {
            self.tag = ParseTag::Fail;
        }
        proof {
            assert(self@ =~~= commit_num(old(self)@, next));
        }
    }

    /// Advances the parser by one character, as `step` says.
    fn step_char(&mut self, c: char)
        requires
            old(self).wf(),
        ensures
            final(self)@ == step(old(self)@, c),
            final(self).wf(),
    {
        let v = c as u32;
        let ws = c == ' ' || c == '\n' || c == '\t' || c == '\r';
        let plain = c != '"' && c != '\\' && v >= 32;
        let digit: Option<u8> = if 48 <= v && v <= 57 {
            Some((v - 48) as u8)
        } else {
            None
        };
        proof {
            assert(ws == is_ws(c));
            assert(plain == plain_char(c));
            assert(digit == digit_val(c));
        }
        match self.tag {
            ParseTag::Start => {
                if ws {
                } else if c == '{' {
                    self.tag = ParseTag::ExpectFirstKey;
                } else {
                    self.tag = ParseTag::Fail;
                }
            },
            ParseTag::ExpectFirstKey => {
                if ws {
                } else if c == '"' {
                    self.tag = ParseTag::InKey;
                    self.key = String::new();
                } else if c == '}' {
                    self.tag = ParseTag::AfterEnd;
                } else {
                    self.tag = ParseTag::Fail;
                }
            },
            ParseTag::InKey => {
                if c == '"' {
                    self.tag = ParseTag::ExpectColon;
                } else if plain {
                    push_char(&mut self.key, c);
                } else {
                    self.tag = ParseTag::Fail;
                }
            },
            ParseTag::ExpectColon => {
                if ws {
                } else if c == ':' {
                    self.tag = ParseTag::ExpectValue;
                } else {
                    self.tag = ParseTag::Fail;
                }
            },
            ParseTag::ExpectValue => {
                if ws {
                } else if c == '"' {
                    self.tag = ParseTag::InStr;
                    self.sval = String::new();
                } else {
                    match digit {
                        Some(d) => {
                            self.tag = ParseTag::InNum;
                            self.num = d as u64;
                            self.too_wide = false;
                            self.gnum = Ghost(d as nat);
                        },
                        None => {
                            self.tag = ParseTag::Fail;
                        },
                    }
                }
            },
            ParseTag::InStr => {
                if c == '"' {
                    self.commit_str_exec();
                } else if plain {
                    push_char(&mut self.sval, c);
                } else {
                    self.tag = ParseTag::Fail;
                }
            },
            ParseTag::InNum => {
                match digit {
                    Some(d) => {
                        self.gnum = Ghost(self.gnum@ * 10 + d as nat);
                        if !self.too_wide {
                            self.num = self.num * 10 + d as u64;
                            if self.num > 0xffff_ffff {
                                self.too_wide = true;
                            }
                        }
                    },
                    None => {
                        if ws {
                            self.commit_num_exec(ParseTag::MemberDone);
                        } else if c == ',' {
                            self.commit_num_exec(ParseTag::ExpectKey);
                        } else if c == '}' {
                            self.commit_num_exec(ParseTag::AfterEnd);
                        } else {
                            self.tag = ParseTag::Fail;
                        }
                    },
                }
            },
            ParseTag::MemberDone => {
                if ws {
                } else if c == ',' {
                    self.tag = ParseTag::ExpectKey;
                } else if c == '}' {
                    self.tag = ParseTag::AfterEnd;
                } else {
                    self.tag = ParseTag::Fail;
                }
            },
            ParseTag::ExpectKey => {
                if ws {
                } else if c == '"' {
                    self.tag = ParseTag::InKey;
                    self.key = String::new();
                } else {
                    self.tag = ParseTag::Fail;
                }
            },
            ParseTag::AfterEnd => {
                if ws {
                } else {
                    self.tag = ParseTag::Fail;
                }
            },
            ParseTag::Fail => {},
        }
        proof {
            assert(self@ =~~= step(old(self)@, c));
        }
    }
}

/// Every key a decoder hands back satisfies the key invariant, so the
/// decoded table is well formed.
proof fn lemma_table_from_entries_wf(es: Seq<(Seq<char>, Seq<char>)>)
    ensures
        keys_unique(table_from_entries(es)),
        keys_valid(table_from_entries(es)),
    decreases es.len(),
{
    if es.len() > 0 {
        lemma_table_from_entries_wf(es.drop_last());
        match (key_decoded(es.last().0), color_decoded(es.last().1)) {
            (Some(k), Some(c)) => {
                crate::key::lemma_key_decoded_valid(es.last().0);
                lemma_table_insert_wf(table_from_entries(es.drop_last()), k, c);
            },
            _ => {},
        }
    }
}

/// Deserializes document text into a table.  Fails with [`ParseError`]
/// exactly when the text is not a well-formed document or the `version`
/// member is missing; a well-formed document yields the table of its
/// decodable entries, in order, entries with a malformed key or color
/// silently dropped.
pub fn from_json(json: &str) -> (r: Result<PlayerColorParam, ParseError>)
    ensures
        match r {
            Ok(t) => {
                &&& parse_doc(json@) is Some
                &&& t@ == table_from_entries(parse_doc(json@)->Some_0.entries)
                &&& t.wf()
            },
            Err(_) => parse_doc(json@) is None,
        },
{
    let chars = str_to_chars(json);
    let n = chars.len();
    let mut p = Parser::init();
    proof {
        assert(chars@.take(0) =~= Seq::<char>::empty());
    }
    let mut i: usize = 0;
    while i < n
        invariant
            chars@ == json@,
            n == chars@.len(),
            i <= n,
            p.wf(),
            p@ == run(init_state(), chars@.take(i as int)),
        decreases n - i,
    {
        let c = chars[i];
        p.step_char(c);
        proof {
            assert(chars@.take(i as int).push(c) =~= chars@.take(i as int + 1));
            lemma_run_push(init_state(), chars@.take(i as int), c);
        }
        i = i + 1;
    }
    proof {
        assert(chars@.take(n as int) =~= json@);
    }
    let ok = match p.tag {
        ParseTag::AfterEnd => true,
        _ => false,
    };
    if !ok || p.version.is_none() {
        return Err(ParseError);
    }
    let ghost doc = parse_doc(json@)->Some_0;
    proof {
        assert(doc.entries == raw_entries_view(p.entries@));
    }
    let mut t = PlayerColorParam::new();
    proof {
        assert(doc.entries.take(0) =~= Seq::<(Seq<char>, Seq<char>)>::empty());
    }
    let m = p.entries.len();
    let mut j: usize = 0;
    while j < m
        invariant
            m == p.entries@.len(),
            j <= m,
            doc.entries == raw_entries_view(p.entries@),
            t.wf(),
            t@ == table_from_entries(doc.entries.take(j as int)),
        decreases m - j,
    {
        let key = crate::key::string_to_key(p.entries[j].0.as_str());
        let color = RGB::from_hex_str(p.entries[j].1.as_str());
        proof {
            assert(doc.entries.take(j as int + 1).drop_last() =~= doc.entries.take(j as int));
            assert(doc.entries.take(j as int + 1).last() == doc.entries[j as int]);
        }
        match (key, color) {
            (Some(k), Some(c)) => {
                t.insert(k, c);
            },
            _ => {},
        }
        j = j + 1;
    }
    proof {
        assert(doc.entries.take(m as int) =~= doc.entries);
    }
    Ok(t)
}

// ---------------------------------------------------------------------------
// The round-trip law: parsing a serialized table gives the table back.
// ---------------------------------------------------------------------------

/// A key whose identifier can stand inside a quoted document string: no
/// quote, no backslash, no control character.
pub open spec fn key_plain(k: KeyModel) -> bool {
    forall|i: int| 0 <= i < k.id.len() ==> plain_char(#[trigger] k.id[i])
}

/// An empty run changes nothing.
proof fn lemma_run_empty(st: ParseState, s: Seq<char>)
    requires
        s.len() == 0,
    ensures
        run(st, s) == st,
{
}

/// One unfolding of the run.
proof fn lemma_run_unfold(st: ParseState, s: Seq<char>)
    requires
        s.len() > 0,
    ensures
        run(st, s) == run(step(st, s[0]), s.drop_first()),
{
}

/// Plain characters accumulate into the member key.
proof fn lemma_run_inkey(st: ParseState, body: Seq<char>)
    requires
        st.tag == ParseTag::InKey,
        forall|i: int| 0 <= i < body.len() ==> plain_char(#[trigger] body[i]),
    ensures
        run(st, body) == (ParseState { key: st.key + body, ..st }),
    decreases body.len(),
{
    if body.len() == 0 {
        assert(st.key + body =~= st.key);
        assert(ParseState { key: st.key + body, ..st } =~~= st);
    } else {
        lemma_run_unfold(st, body);
        let st1 = ParseState { key: st.key.push(body[0]), ..st };
        assert(step(st, body[0]) == st1);
        lemma_run_inkey(st1, body.drop_first());
        assert(st.key.push(body[0]) + body.drop_first() =~= st.key + body);
    }
}

/// A run over one string member from a key-expecting state: the key and
/// value are read and the member is filed.
proof fn lemma_run_string_member(st: ParseState, name: Seq<char>, value: Seq<char>)
    requires
        st.tag == ParseTag::ExpectKey || st.tag == ParseTag::ExpectFirstKey,
        forall|i: int| 0 <= i < name.len() ==> plain_char(#[trigger] name[i]),
        forall|i: int| 0 <= i < value.len() ==> plain_char(#[trigger] value[i]),
    ensures
        run(st, "  \""@ + name + "\": \""@ + value + "\""@) == commit_str(
            ParseState { tag: ParseTag::InStr, key: name, sval: value, ..st },
        ),
{
    reveal_strlit("  \"");
    reveal_strlit("\": \"");
    reveal_strlit("\"");
    let p0 = "  \""@;
    let p1 = "\": \""@;
    let p2 = "\""@;
    lemma_run_concat(st, p0 + name + p1 + value, p2);
    lemma_run_concat(st, p0 + name + p1, value);
    lemma_run_concat(st, p0 + name, p1);
    lemma_run_concat(st, p0, name);
    // the opening `  "`
    let stk = ParseState { tag: ParseTag::InKey, key: Seq::empty(), ..st };
    assert(run(st, p0) == stk) by {
        lemma_run_unfold(st, p0);
        assert(step(st, p0[0]) == st);
        lemma_run_unfold(st, p0.drop_first());
        assert(step(st, p0.drop_first()[0]) == st);
        lemma_run_unfold(st, p0.drop_first().drop_first());
        assert(p0.drop_first().drop_first()[0] == '"');
        lemma_run_empty(stk, p0.drop_first().drop_first().drop_first());
    }
    // the key
    lemma_run_inkey(stk, name);
    let stc = ParseState { tag: ParseTag::InKey, key: Seq::empty() + name, ..st };
    assert(run(st, p0 + name) == stc);
    assert(Seq::empty() + name =~= name);
    // the `": "` between key and value
    let stv = ParseState { tag: ParseTag::InStr, key: name, sval: Seq::empty(), ..st };
    assert(run(stc, p1) == stv) by {
        lemma_run_unfold(stc, p1);
        assert(p1[0] == '"');
        let a = ParseState { tag: ParseTag::ExpectColon, key: name, ..st };
        assert(step(stc, '"') =~~= a);
        lemma_run_unfold(a, p1.drop_first());
        assert(p1.drop_first()[0] == ':');
        let b = ParseState { tag: ParseTag::ExpectValue, key: name, ..st };
        assert(step(a, ':') =~~= b);
        lemma_run_unfold(b, p1.drop_first().drop_first());
        assert(p1.drop_first().drop_first()[0] == ' ');
        assert(step(b, ' ') == b);
        lemma_run_unfold(b, p1.drop_first().drop_first().drop_first());
        assert(p1.drop_first().drop_first().drop_first()[0] == '"');
        assert(step(b, '"') =~~= stv);
        lemma_run_empty(stv, p1.drop_first().drop_first().drop_first().drop_first());
    }
    // the value
    lemma_run_instr_chars(stv, value);
    let stf = ParseState { tag: ParseTag::InStr, key: name, sval: Seq::empty() + value, ..st };
    assert(run(st, p0 + name + p1 + value) == stf);
    assert(Seq::empty() + value =~= value);
    assert(stf =~~= ParseState { tag: ParseTag::InStr, key: name, sval: value, ..st });
    // the closing quote files the member
    lemma_run_unfold(stf, p2);
    assert(p2[0] == '"');
    lemma_run_empty(commit_str(stf), p2.drop_first());
}

/// Plain characters accumulate into the string value.
proof fn lemma_run_instr_chars(st: ParseState, body: Seq<char>)
    requires
        st.tag == ParseTag::InStr,
        forall|i: int| 0 <= i < body.len() ==> plain_char(#[trigger] body[i]),
    ensures
        run(st, body) == (ParseState { sval: st.sval + body, ..st }),
    decreases body.len(),
{
    if body.len() == 0 {
        assert(st.sval + body =~= st.sval);
        assert(ParseState { sval: st.sval + body, ..st } =~~= st);
    } else {
        lemma_run_unfold(st, body);
        let st1 = ParseState { sval: st.sval.push(body[0]), ..st };
        assert(step(st, body[0]) == st1);
        lemma_run_instr_chars(st1, body.drop_first());
        assert(st.sval.push(body[0]) + body.drop_first() =~= st.sval + body);
    }
}

/// Every character the key and color encoders emit can stand inside a
/// quoted document string, for a valid key with a plain identifier.
proof fn lemma_entry_plain(k: KeyModel, c: RGB)
    requires
        key_valid(k),
        key_plain(k),
    ensures
        forall|i: int| 0 <= i < key_chars(k).len() ==> plain_char(#[trigger] key_chars(k)[i]),
        forall|i: int| 0 <= i < color_chars(c).len() ==> plain_char(#[trigger] color_chars(c)[i]),
{
    assert forall|i: int| 0 <= i < key_chars(k).len() implies plain_char(
        #[trigger] key_chars(k)[i],
    ) by {
        if i < 4 {
            assert(key_chars(k)[i] == k.id[i]);
        } else if i == 5 {
            assert(key_chars(k)[i] == k.id[5]);
        }
    }
    assert forall|i: int| 0 <= i < color_chars(c).len() implies plain_char(
        #[trigger] color_chars(c)[i],
    ) by {
    }
}

/// A run over the version line without its comma: the version number is
/// read but not yet filed.
proof fn lemma_run_version_line(st: ParseState)
    requires
        st.tag == ParseTag::ExpectKey || st.tag == ParseTag::ExpectFirstKey,
    ensures
        run(st, doc_line2(false)) == (ParseState {
            tag: ParseTag::InNum,
            key: "version"@,
            num: 260218,
            ..st
        }),
{
    reveal_strlit("  \"version\": 260218");
    reveal_strlit("  \"");
    reveal_strlit("version");
    reveal_strlit("\": ");
    reveal_strlit("260218");
    let p0 = "  \""@;
    let name = "version"@;
    let p1 = "\": "@;
    let digits = "260218"@;
    assert(doc_line2(false) =~= p0 + name + p1 + digits);
    lemma_run_concat(st, p0 + name + p1, digits);
    lemma_run_concat(st, p0 + name, p1);
    lemma_run_concat(st, p0, name);
    let stk = ParseState { tag: ParseTag::InKey, key: Seq::empty(), ..st };
    assert(run(st, p0) == stk) by {
        lemma_run_unfold(st, p0);
        assert(step(st, p0[0]) == st);
        lemma_run_unfold(st, p0.drop_first());
        assert(step(st, p0.drop_first()[0]) == st);
        lemma_run_unfold(st, p0.drop_first().drop_first());
        assert(p0.drop_first().drop_first()[0] == '"');
        lemma_run_empty(stk, p0.drop_first().drop_first().drop_first());
    }
    assert forall|i: int| 0 <= i < name.len() implies plain_char(#[trigger] name[i]) by {}
    lemma_run_inkey(stk, name);
    let stc = ParseState { tag: ParseTag::InKey, key: name, ..st };
    assert(Seq::empty() + name =~= name);
    assert(run(st, p0 + name) == stc);
    let stv = ParseState { tag: ParseTag::ExpectValue, key: name, ..st };
    assert(run(stc, p1) == stv) by {
        lemma_run_unfold(stc, p1);
        assert(p1[0] == '"');
        let a = ParseState { tag: ParseTag::ExpectColon, key: name, ..st };
        assert(step(stc, '"') =~~= a);
        lemma_run_unfold(a, p1.drop_first());
        assert(p1.drop_first()[0] == ':');
        assert(step(a, ':') =~~= stv);
        lemma_run_unfold(stv, p1.drop_first().drop_first());
        assert(p1.drop_first().drop_first()[0] == ' ');
        assert(step(stv, ' ') == stv);
        lemma_run_empty(stv, p1.drop_first().drop_first().drop_first());
    }
    let fin = ParseState { tag: ParseTag::InNum, key: name, num: 260218, ..st };
    assert(run(stv, digits) == fin) by {
        let d1 = digits.drop_first();
        let d2 = d1.drop_first();
        let d3 = d2.drop_first();
        let d4 = d3.drop_first();
        let d5 = d4.drop_first();
        let d6 = d5.drop_first();
        lemma_run_unfold(stv, digits);
        assert(digits[0] == '2');
        let a = ParseState { tag: ParseTag::InNum, key: name, num: 2, ..st };
        assert(step(stv, '2') =~~= a);
        lemma_run_unfold(a, d1);
        assert(d1[0] == '6');
        let b = ParseState { tag: ParseTag::InNum, key: name, num: 26, ..st };
        assert(step(a, '6') =~~= b);
        lemma_run_unfold(b, d2);
        assert(d2[0] == '0');
        let c2 = ParseState { tag: ParseTag::InNum, key: name, num: 260, ..st };
        assert(step(b, '0') =~~= c2);
        lemma_run_unfold(c2, d3);
        assert(d3[0] == '2');
        let d = ParseState { tag: ParseTag::InNum, key: name, num: 2602, ..st };
        assert(step(c2, '2') =~~= d);
        lemma_run_unfold(d, d4);
        assert(d4[0] == '1');
        let e = ParseState { tag: ParseTag::InNum, key: name, num: 26021, ..st };
        assert(step(d, '1') =~~= e);
        lemma_run_unfold(e, d5);
        assert(d5[0] == '8');
        assert(step(e, '8') =~~= fin);
        assert(d6.len() == 0);
        lemma_run_empty(fin, d6);
    }
}

/// The state after the header block of a serialized non-empty table: both
/// fixed members are filed and the first entry key is expected.
spec fn header_state() -> ParseState {
    ParseState {
        tag: ParseTag::ExpectKey,
        key: "version"@,
        sval: "PlayerColorParam"@,
        num: 260218,
        filetype: Some("PlayerColorParam"@),
        version: Some(260218u32),
        entries: Seq::empty(),
    }
}

/// A run over the header block of a serialized non-empty table.
proof fn lemma_run_header()
    ensures
        run(
            init_state(),
            doc_line0() + "\n"@ + doc_line1() + "\n"@ + doc_line2(true) + "\n"@ + "\n"@,
        ) == header_state(),
{
    reveal_strlit("{");
    reveal_strlit("\n");
    reveal_strlit(",");
    reveal_strlit("  \"filetype\": \"PlayerColorParam\",");
    reveal_strlit("  \"version\": 260218,");
    reveal_strlit("  \"version\": 260218");
    reveal_strlit("filetype");
    reveal_strlit("PlayerColorParam");
    reveal_strlit("  \"");
    reveal_strlit("\": \"");
    reveal_strlit("\"");
    let st0 = init_state();
    let l0 = doc_line0();
    let nl = "\n"@;
    // the opening brace and its line break
    let st1 = ParseState { tag: ParseTag::ExpectFirstKey, ..st0 };
    assert(run(st0, l0) == st1) by {
        lemma_run_unfold(st0, l0);
        assert(l0[0] == '{');
        assert(step(st0, '{') =~~= st1);
        lemma_run_empty(st1, l0.drop_first());
    }
    lemma_run_concat(st0, l0, nl);
    assert(run(st1, nl) == st1) by {
        lemma_run_unfold(st1, nl);
        assert(nl[0] == '\n');
        lemma_run_empty(st1, nl.drop_first());
    }
    // the filetype member and its comma and line break
    lemma_run_concat(st0, l0 + nl, doc_line1());
    let ft = "filetype"@;
    let pcp = "PlayerColorParam"@;
    assert(doc_line1() =~= ("  \""@ + ft + "\": \""@ + pcp + "\""@) + ","@);
    assert forall|i: int| 0 <= i < ft.len() implies plain_char(#[trigger] ft[i]) by {}
    assert forall|i: int| 0 <= i < pcp.len() implies plain_char(#[trigger] pcp[i]) by {}
    lemma_run_string_member(st1, ft, pcp);
    let stm = commit_str(ParseState { tag: ParseTag::InStr, key: ft, sval: pcp, ..st1 });
    assert(stm == (ParseState {
        tag: ParseTag::MemberDone,
        key: ft,
        sval: pcp,
        filetype: Some(pcp),
        ..st1
    }));
    lemma_run_concat(st1, "  \""@ + ft + "\": \""@ + pcp + "\""@, ","@);
    assert(run(st1, doc_line1()) == run(st1, ("  \""@ + ft + "\": \""@ + pcp + "\""@) + ","@));
    let stk = ParseState { tag: ParseTag::ExpectKey, key: ft, sval: pcp, filetype: Some(pcp), ..st1 };
    assert(run(stm, ","@) == stk) by {
        lemma_run_unfold(stm, ","@);
        assert((","@)[0] == ',');
        assert(step(stm, ',') =~~= stk);
        lemma_run_empty(stk, (","@).drop_first());
    }
    lemma_run_concat(st0, l0 + nl + doc_line1(), nl);
    assert(run(stk, nl) == stk) by {
        lemma_run_unfold(stk, nl);
        lemma_run_empty(stk, nl.drop_first());
    }
    // the version member and its comma and the blank line
    lemma_run_concat(st0, l0 + nl + doc_line1() + nl, doc_line2(true));
    assert(doc_line2(true) =~= doc_line2(false) + ","@);
    lemma_run_version_line(stk);
    let stn = ParseState { tag: ParseTag::InNum, key: "version"@, num: 260218, ..stk };
    lemma_run_concat(stk, doc_line2(false), ","@);
    let stv = ParseState {
        tag: ParseTag::ExpectKey,
        key: "version"@,
        num: 260218,
        version: Some(260218u32),
        ..stk
    };
    assert(run(stn, ","@) == stv) by {
        lemma_run_unfold(stn, ","@);
        assert(step(stn, ',') == commit_num(stn, ParseTag::ExpectKey));
        assert(commit_num(stn, ParseTag::ExpectKey) =~~= stv);
        lemma_run_empty(stv, (","@).drop_first());
    }
    lemma_run_concat(st0, l0 + nl + doc_line1() + nl + doc_line2(true), nl);
    assert(run(stv, nl) == stv) by {
        lemma_run_unfold(stv, nl);
        lemma_run_empty(stv, nl.drop_first());
    }
    lemma_run_concat(st0, l0 + nl + doc_line1() + nl + doc_line2(true) + nl, nl);
    assert(stv =~~= header_state());
}

/// The raw member each table pair is rendered as.
spec fn rendered(s: Seq<(KeyModel, RGB)>) -> Seq<(Seq<char>, Seq<char>)> {
    Seq::new(s.len(), |i: int| (key_chars(s[i].0), color_chars(s[i].1)))
}

/// Raw members filed one after the other, in order.
spec fn fold_insert(
    es: Seq<(Seq<char>, Seq<char>)>,
    ps: Seq<(Seq<char>, Seq<char>)>,
) -> Seq<(Seq<char>, Seq<char>)>
    decreases ps.len(),
{
    if ps.len() == 0 {
        es
    } else {
        fold_insert(pair_insert(es, ps[0].0, ps[0].1), ps.drop_first())
    }
}

/// A run over the joined entry lines files each entry in order.
proof fn lemma_run_entries(st: ParseState, s: Seq<(KeyModel, RGB)>)
    requires
        st.tag == ParseTag::ExpectKey,
        s.len() >= 1,
        forall|i: int| 0 <= i < s.len() ==> key_valid(#[trigger] s[i].0) && key_plain(s[i].0),
    ensures
        run(st, entries_text(s)) == (ParseState {
            tag: ParseTag::MemberDone,
            key: key_chars(s.last().0),
            sval: color_chars(s.last().1),
            entries: fold_insert(st.entries, rendered(s)),
            ..st
        }),
    decreases s.len(),
{
    reveal_strlit("filetype");
    reveal_strlit("version");
    reveal_strlit(",\n");
    let kc = key_chars(s[0].0);
    let cc = color_chars(s[0].1);
    lemma_entry_plain(s[0].0, s[0].1);
    lemma_run_string_member(st, kc, cc);
    assert(kc.len() == 10);
    assert(kc != "filetype"@ && kc != "version"@) by {
        assert(("filetype"@).len() == 8);
        assert(("version"@).len() == 7);
    }
    let st1 = ParseState {
        tag: ParseTag::MemberDone,
        key: kc,
        sval: cc,
        entries: pair_insert(st.entries, kc, cc),
        ..st
    };
    assert(commit_str(ParseState { tag: ParseTag::InStr, key: kc, sval: cc, ..st }) =~~= st1);
    assert(rendered(s)[0] == (kc, cc));
    if s.len() == 1 {
        assert(entries_text(s) == entry_line(s[0].0, s[0].1));
        assert(run(st, entry_line(s[0].0, s[0].1)) == st1);
        assert(rendered(s).drop_first().len() == 0);
        assert(fold_insert(st.entries, rendered(s)) == fold_insert(
            pair_insert(st.entries, kc, cc),
            rendered(s).drop_first(),
        ));
        assert(fold_insert(pair_insert(st.entries, kc, cc), rendered(s).drop_first())
            == pair_insert(st.entries, kc, cc));
        assert(s.last() == s[0]);
    } else {
        assert(entries_text(s) == entry_line(s[0].0, s[0].1) + ",\n"@ + entries_text(
            s.drop_first(),
        ));
        lemma_run_concat(st, entry_line(s[0].0, s[0].1) + ",\n"@, entries_text(s.drop_first()));
        lemma_run_concat(st, entry_line(s[0].0, s[0].1), ",\n"@);
        let st2 = ParseState { tag: ParseTag::ExpectKey, ..st1 };
        assert(run(st1, ",\n"@) == st2) by {
            lemma_run_unfold(st1, ",\n"@);
            assert((",\n"@)[0] == ',');
            assert(step(st1, ',') =~~= st2);
            lemma_run_unfold(st2, (",\n"@).drop_first());
            assert((",\n"@).drop_first()[0] == '\n');
            assert(step(st2, '\n') == st2);
            lemma_run_empty(st2, (",\n"@).drop_first().drop_first());
        }
        assert(forall|i: int|
            0 <= i < s.drop_first().len() ==> key_valid(#[trigger] s.drop_first()[i].0)
                && key_plain(s.drop_first()[i].0));
        lemma_run_entries(st2, s.drop_first());
        assert(rendered(s).drop_first() =~= rendered(s.drop_first()));
        assert(fold_insert(st.entries, rendered(s)) == fold_insert(
            st2.entries,
            rendered(s.drop_first()),
        ));
        assert(s.drop_first().last() == s.last());
        assert(run(st, entries_text(s)) == (ParseState {
            tag: ParseTag::MemberDone,
            key: key_chars(s.last().0),
            sval: color_chars(s.last().1),
            entries: fold_insert(st.entries, rendered(s)),
            ..st
        }));
    }
}

/// Filing raw members whose keys are fresh and pairwise distinct appends
/// them in order.
proof fn lemma_fold_insert_fresh(es: Seq<(Seq<char>, Seq<char>)>, ps: Seq<(Seq<char>, Seq<char>)>)
    requires
        forall|i: int| 0 <= i < ps.len() ==> pair_index(es, (#[trigger] ps[i]).0) < 0,
        forall|i: int, j: int| 0 <= i < j < ps.len() ==> ps[i].0 != ps[j].0,
    ensures
        fold_insert(es, ps) == es + ps,
    decreases ps.len(),
{
    if ps.len() == 0 {
        assert(es + ps =~= es);
    } else {
        assert(pair_insert(es, ps[0].0, ps[0].1) == es.push((ps[0].0, ps[0].1)));
        assert(es.push((ps[0].0, ps[0].1)) == es.push(ps[0]));
        assert forall|i: int| 0 <= i < ps.drop_first().len() implies pair_index(
            es.push(ps[0]),
            (#[trigger] ps.drop_first()[i]).0,
        ) < 0 by {
            assert(ps.drop_first()[i] == ps[i + 1]);
            lemma_pair_index_push_absent(es, ps[0], ps[i + 1].0);
        }
        lemma_fold_insert_fresh(es.push(ps[0]), ps.drop_first());
        assert(es.push(ps[0]) + ps.drop_first() =~= es + ps);
    }
}

/// Decoding the rendered members of a well-formed table gives the table
/// back.
proof fn lemma_table_from_rendered(t: Seq<(KeyModel, RGB)>)
    requires
        keys_unique(t),
        keys_valid(t),
    ensures
        table_from_entries(rendered(t)) == t,
    decreases t.len(),
{
    if t.len() == 0 {
        assert(rendered(t) =~= Seq::<(Seq<char>, Seq<char>)>::empty());
        assert(table_from_entries(rendered(t)) =~= t);
    } else {
        let m = t.drop_last();
        assert(rendered(t).drop_last() =~= rendered(m));
        lemma_table_from_rendered(m);
        let k = t.last().0;
        let c = t.last().1;
        assert(rendered(t).last() == (key_chars(k), color_chars(c)));
        crate::key::lemma_key_round_trip(k);
        crate::color::lemma_color_round_trip(c);
        assert forall|j: int| 0 <= j < m.len() implies m[j].0 != k by {
            assert(t[j].0 != t[t.len() - 1].0);
        }
        lemma_pair_index_first_match(m, k, m.len() as int);
        assert(table_insert(m, k, c) == m.push((k, c)));
        assert(m.push((k, c)) =~= t);
    }
}

/// Law: a well-formed table round-trips.  Serializing any table with
/// unique, valid keys whose identifiers hold only plain string characters,
/// then parsing the document text, succeeds and decodes to exactly the
/// same key-to-color pairs, in the same order.
pub proof fn lemma_round_trip(t: Seq<(KeyModel, RGB)>)
    requires
        keys_unique(t),
        keys_valid(t),
        forall|i: int| 0 <= i < t.len() ==> key_plain((#[trigger] t[i]).0),
    ensures
        parse_doc(doc_text(t)) is Some,
        table_from_entries(parse_doc(doc_text(t))->Some_0.entries) == t,
{
    reveal_strlit("\n");
    reveal_strlit("}");
    let st0 = init_state();
    let nl = "\n"@;
    let cb = "}"@;
    if t.len() == 0 {
        lemma_run_empty_doc();
        assert(table_from_entries(Seq::<(Seq<char>, Seq<char>)>::empty()) =~= t);
    } else {
        let hd = doc_line0() + nl + doc_line1() + nl + doc_line2(true) + nl + nl;
        lemma_run_header();
        lemma_run_concat(st0, hd, entries_text(t));
        lemma_run_entries(header_state(), t);
        assert forall|i: int| 0 <= i < rendered(t).len() implies pair_index(
            header_state().entries,
            (#[trigger] rendered(t)[i]).0,
        ) < 0 by {}
        assert forall|i: int, j: int| 0 <= i < j < rendered(t).len() implies rendered(t)[i].0
            != rendered(t)[j].0 by {
            if rendered(t)[i].0 == rendered(t)[j].0 {
                crate::key::lemma_key_encoding_injective(t[i].0, t[j].0);
            }
        }
        lemma_fold_insert_fresh(header_state().entries, rendered(t));
        assert(header_state().entries + rendered(t) =~= rendered(t));
        let st1 = ParseState {
            tag: ParseTag::MemberDone,
            key: key_chars(t.last().0),
            sval: color_chars(t.last().1),
            entries: rendered(t),
            ..header_state()
        };
        assert(run(st0, hd + entries_text(t)) =~~= st1);
        lemma_run_concat(st0, hd + entries_text(t), nl);
        assert(run(st1, nl) == st1) by {
            lemma_run_unfold(st1, nl);
            assert(nl[0] == '\n');
            lemma_run_empty(st1, nl.drop_first());
        }
        lemma_run_concat(st0, hd + entries_text(t) + nl, cb);
        let st2 = ParseState { tag: ParseTag::AfterEnd, ..st1 };
        assert(run(st1, cb) == st2) by {
            lemma_run_unfold(st1, cb);
            assert(cb[0] == '}');
            assert(step(st1, '}') =~~= st2);
            lemma_run_empty(st2, cb.drop_first());
        }
        assert(doc_text(t) == hd + entries_text(t) + nl + cb);
        assert(run(st0, doc_text(t)) == st2);
        assert(parse_doc(doc_text(t)) == Some(st2));
        lemma_table_from_rendered(t);
    }
}

/// A run over the serialized empty table ends after the closing brace with
/// no entries and the version filed.
proof fn lemma_run_empty_doc()
    ensures
        parse_doc(doc_text(Seq::<(KeyModel, RGB)>::empty())) matches Some(f) && f.entries
            == Seq::<(Seq<char>, Seq<char>)>::empty(),
{
    reveal_strlit("{");
    reveal_strlit("\n");
    reveal_strlit(",");
    reveal_strlit("}");
    reveal_strlit("  \"filetype\": \"PlayerColorParam\",");
    reveal_strlit("filetype");
    reveal_strlit("PlayerColorParam");
    reveal_strlit("  \"");
    reveal_strlit("\": \"");
    reveal_strlit("\"");
    let st0 = init_state();
    let l0 = doc_line0();
    let nl = "\n"@;
    let cb = "}"@;
    let st1 = ParseState { tag: ParseTag::ExpectFirstKey, ..st0 };
    assert(run(st0, l0) == st1) by {
        lemma_run_unfold(st0, l0);
        assert(l0[0] == '{');
        assert(step(st0, '{') =~~= st1);
        lemma_run_empty(st1, l0.drop_first());
    }
    lemma_run_concat(st0, l0, nl);
    assert(run(st1, nl) == st1) by {
        lemma_run_unfold(st1, nl);
        lemma_run_empty(st1, nl.drop_first());
    }
    lemma_run_concat(st0, l0 + nl, doc_line1());
    let ft = "filetype"@;
    let pcp = "PlayerColorParam"@;
    assert(doc_line1() =~= ("  \""@ + ft + "\": \""@ + pcp + "\""@) + ","@);
    assert forall|i: int| 0 <= i < ft.len() implies plain_char(#[trigger] ft[i]) by {}
    assert forall|i: int| 0 <= i < pcp.len() implies plain_char(#[trigger] pcp[i]) by {}
    lemma_run_string_member(st1, ft, pcp);
    let stm = commit_str(ParseState { tag: ParseTag::InStr, key: ft, sval: pcp, ..st1 });
    let stk = ParseState { tag: ParseTag::ExpectKey, key: ft, sval: pcp, filetype: Some(pcp), ..st1 };
    assert(run(st1, doc_line1()) == run(st1, ("  \""@ + ft + "\": \""@ + pcp + "\""@) + ","@));
    lemma_run_concat(st1, "  \""@ + ft + "\": \""@ + pcp + "\""@, ","@);
    assert(run(stm, ","@) == stk) by {
        lemma_run_unfold(stm, ","@);
        assert((","@)[0] == ',');
        assert(step(stm, ',') =~~= stk);
        lemma_run_empty(stk, (","@).drop_first());
    }
    lemma_run_concat(st0, l0 + nl + doc_line1(), nl);
    assert(run(stk, nl) == stk) by {
        lemma_run_unfold(stk, nl);
        lemma_run_empty(stk, nl.drop_first());
    }
    lemma_run_concat(st0, l0 + nl + doc_line1() + nl, doc_line2(false));
    lemma_run_version_line(stk);
    let stn = ParseState { tag: ParseTag::InNum, key: "version"@, num: 260218, ..stk };
    lemma_run_concat(st0, l0 + nl + doc_line1() + nl + doc_line2(false), nl);
    let stv = ParseState {
        tag: ParseTag::MemberDone,
        key: "version"@,
        num: 260218,
        version: Some(260218u32),
        ..stk
    };
    assert(run(stn, nl) == stv) by {
        lemma_run_unfold(stn, nl);
        assert(nl[0] == '\n');
        assert(step(stn, '\n') == commit_num(stn, ParseTag::MemberDone));
        assert(commit_num(stn, ParseTag::MemberDone) =~~= stv);
        lemma_run_empty(stv, nl.drop_first());
    }
    lemma_run_concat(st0, l0 + nl + doc_line1() + nl + doc_line2(false) + nl, nl);
    assert(run(stv, nl) == stv) by {
        lemma_run_unfold(stv, nl);
        lemma_run_empty(stv, nl.drop_first());
    }
    lemma_run_concat(st0, l0 + nl + doc_line1() + nl + doc_line2(false) + nl + nl, cb);
    let stf = ParseState { tag: ParseTag::AfterEnd, ..stv };
    assert(run(stv, cb) == stf) by {
        lemma_run_unfold(stv, cb);
        assert(cb[0] == '}');
        assert(step(stv, '}') =~~= stf);
        lemma_run_empty(stf, cb.drop_first());
    }
    assert(run(st0, doc_text(Seq::<(KeyModel, RGB)>::empty())) == stf);
}

// ---------------------------------------------------------------------------
// The blank-line law: the fourth line of every serialized document is empty.
// ---------------------------------------------------------------------------

/// The position of the first line break, or the length when there is none.
pub open spec fn first_newline(s: Seq<char>) -> nat
    decreases s.len(),
{
    if s.len() == 0 {
        0
    } else if s[0] == '\n' {
        0
    } else {
        1 + first_newline(s.drop_first())
    }
}

/// The text split at line breaks — what splitting a text without a
/// trailing line break into lines yields.
pub open spec fn split_lines(s: Seq<char>) -> Seq<Seq<char>>
    decreases s.len(),
{
    let e = first_newline(s);
    if e >= s.len() {
        seq![s]
    } else {
        seq![s.subrange(0, e as int)] + split_lines(s.subrange(e as int + 1, s.len() as int))
    }
}

/// The first line break of a text that starts with a break-free part
/// followed by a break stands right after that part.
proof fn lemma_first_newline_concat(a: Seq<char>, b: Seq<char>)
    requires
        forall|i: int| 0 <= i < a.len() ==> (#[trigger] a[i]) != '\n',
        b.len() > 0,
        b[0] == '\n',
    ensures
        first_newline(a + b) == a.len(),
    decreases a.len(),
{
    if a.len() == 0 {
        assert(a + b =~= b);
    } else {
        assert((a + b)[0] == a[0]);
        assert((a + b).drop_first() =~= a.drop_first() + b);
        lemma_first_newline_concat(a.drop_first(), b);
    }
}

/// Splitting takes one break-free line at a time.
proof fn lemma_split_lines_step(line: Seq<char>, rest: Seq<char>)
    requires
        forall|i: int| 0 <= i < line.len() ==> (#[trigger] line[i]) != '\n',
    ensures
        split_lines(line + seq!['\n'] + rest) == seq![line] + split_lines(rest),
{
    let s = line + seq!['\n'] + rest;
    assert(s =~= line + (seq!['\n'] + rest));
    lemma_first_newline_concat(line, seq!['\n'] + rest);
    let e = first_newline(s);
    assert(e == line.len());
    assert(e < s.len());
    assert(s.subrange(0, e as int) =~= line);
    assert(s.subrange(e as int + 1, s.len() as int) =~= rest);
}

/// Law: the serialized document, split at line breaks, always has more
/// than three lines, and the line at index 3 is the empty one — the blank
/// line after the header block.  The header always holds three lines, so
/// the blank line is inserted for every table.
pub proof fn lemma_serialized_blank_line(s: Seq<(KeyModel, RGB)>)
    ensures
        split_lines(doc_text(s)).len() > 3,
        split_lines(doc_text(s))[3] == Seq::<char>::empty(),
{
    reveal_strlit("\n");
    reveal_strlit("{");
    reveal_strlit("}");
    reveal_strlit("  \"filetype\": \"PlayerColorParam\",");
    reveal_strlit("  \"version\": 260218,");
    reveal_strlit("  \"version\": 260218");
    let nl = seq!['\n'];
    assert("\n"@ =~= nl);
    let l0 = doc_line0();
    let l1 = doc_line1();
    let l2 = doc_line2(s.len() > 0);
    assert(forall|i: int| 0 <= i < l0.len() ==> (#[trigger] l0[i]) != '\n');
    assert(forall|i: int| 0 <= i < l1.len() ==> (#[trigger] l1[i]) != '\n');
    assert(forall|i: int| 0 <= i < l2.len() ==> (#[trigger] l2[i]) != '\n');
    let tail = if s.len() == 0 {
        "}"@
    } else {
        entries_text(s) + "\n"@ + "}"@
    };
    let r3 = Seq::<char>::empty() + nl + tail;
    let r2 = l2 + nl + r3;
    let r1 = l1 + nl + r2;
    assert(doc_text(s) =~= l0 + nl + r1);
    lemma_split_lines_step(l0, r1);
    lemma_split_lines_step(l1, r2);
    lemma_split_lines_step(l2, r3);
    lemma_split_lines_step(Seq::<char>::empty(), tail);
    assert(split_lines(doc_text(s)) == seq![l0] + (seq![l1] + (seq![l2] + (seq![
        Seq::<char>::empty(),
    ] + split_lines(tail)))));
    assert(split_lines(doc_text(s))[3] == Seq::<char>::empty());
}

} // verus!
