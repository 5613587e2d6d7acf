use vstd::prelude::*;
use vstd::string::StringSliceAdditionalSpecFns;
use vstd::utf8::{
    encode_utf8, encode_utf8_valid_utf8, is_char_boundary,
    is_char_boundary_iff_not_is_continuation_byte,
};

use crate::bms::{
    all_digits36, as_id, as_str, digit_char, digit_value, id_token, is_digit36,
    lemma_token_value, numeral_value, push_char, ID_LIMIT,
};

verus! {

/// Value of the channel token `10`: channels below it are background or
/// control data unless they are a first-player lane.
pub const LOW_CHANNEL_LIMIT: u32 = 36;

/// A note line starts with `#`, five ASCII letters or digits, and `:`.
pub open spec fn is_note_header(s: Seq<char>) -> bool {
    &&& s.len() >= 7
    &&& s[0] == '#'
    &&& forall|i: int| 1 <= i < 6 ==> is_digit36(#[trigger] s[i])
    &&& s[6] == ':'
}

pub open spec fn is_decimal(c: char) -> bool {
    '0' <= c && c <= '9'
}

/// The slot tokens of a note line: everything after the `:`.
pub open spec fn body_of(s: Seq<char>) -> Seq<char> {
    s.subrange(7, s.len() as int)
}

/// Text that parses as a note line: the header, a three-digit decimal
/// measure, and a body of whole two-character base-36 tokens.
pub open spec fn is_note_text(s: Seq<char>) -> bool {
    &&& is_note_header(s)
    &&& forall|i: int| 1 <= i < 4 ==> is_decimal(#[trigger] s[i])
    &&& body_of(s).len() % 2 == 0
    &&& all_digits36(body_of(s))
}

pub open spec fn measure_of(s: Seq<char>) -> int {
    digit_value(s[1]) * 100 + digit_value(s[2]) * 10 + digit_value(s[3])
}

pub open spec fn channel_of(s: Seq<char>) -> int {
    numeral_value(s.subrange(4, 6))
}

/// The `i`-th two-character token of a body.
pub open spec fn token_at(body: Seq<char>, i: int) -> Seq<char> {
    body.subrange(2 * i, 2 * i + 2)
}

pub open spec fn slots_of(s: Seq<char>) -> Seq<u64> {
    Seq::new((body_of(s).len() / 2) as nat, |i: int| numeral_value(token_at(body_of(s), i)) as u64)
}

/// Three decimal digits of a measure below 1000.
pub open spec fn measure_text(m: int) -> Seq<char> {
    seq![digit_char(m / 100), digit_char(m / 10 % 10), digit_char(m % 10)]
}

/// The tokens of a sequence of slots, one after the other.
pub open spec fn slots_text(slots: Seq<u64>) -> Seq<char>
    decreases slots.len(),
{
    if slots.len() == 0 {
        Seq::empty()
    } else {
        slots_text(slots.drop_last()) + id_token(slots.last() as int)
    }
}

/// The canonical text of a note line.
pub open spec fn note_text(measure: u32, channel: u32, slots: Seq<u64>) -> Seq<char> {
    seq!['#'] + measure_text(measure as int) + id_token(channel as int) + seq![':'] + slots_text(
        slots,
    )
}

/// Whether keysounds on a channel may be rewritten: any channel at or above
/// the token `10`, and below it only those whose low digit is `1`.
pub open spec fn channel_eligible(channel: u32) -> bool {
    !(channel < LOW_CHANNEL_LIMIT && channel % 36 != 1)
}

/// Characters with the Unicode White_Space property.
pub open spec fn is_white_space(c: char) -> bool {
    let u = c as u32;
    ||| 0x9 <= u && u <= 0xD
    ||| u == 0x20
    ||| u == 0x85
    ||| u == 0xA0
    ||| u == 0x1680
    ||| 0x2000 <= u && u <= 0x200A
    ||| u == 0x2028
    ||| u == 0x2029
    ||| u == 0x202F
    ||| u == 0x205F
    ||| u == 0x3000
}

/// The text without its trailing white space.
pub open spec fn trimmed_end(s: Seq<char>) -> Seq<char>
    decreases s.len(),
{
    if s.len() > 0 && is_white_space(s.last()) {
        trimmed_end(s.drop_last())
    } else {
        s
    }
}

/// A compiled regular expression of the regex crate, carried opaquely.
#[verifier::external_type_specification]
#[verifier::external_body]
pub struct ExRegex(regex::Regex);

/// The compiled note-line header pattern, built once and reused for every
/// line it classifies.
pub struct NoteGrammar {
    pattern: regex::Regex,
}

impl NoteGrammar {
    /// Relies on regex::Regex::new: the fixed pattern `^#[A-Za-z0-9]{5}:`
    /// is valid, so compiling it does not fail.
    #[verifier::external_body]
    pub fn new() -> (r: Self) {
        NoteGrammar { pattern: regex::Regex::new(r"^#[A-Za-z0-9]{5}:").unwrap() }
    }

    /// Relies on regex::Regex::is_match with the pattern that `new` compiled:
    /// true exactly when the text starts with `#`, five ASCII letters or
    /// digits, and `:`.
    #[verifier::external_body]
    pub fn matches(&self, line: &str) -> (r: bool)
        ensures
            r == is_note_header(line@),
    {
        self.pattern.is_match(line)
    }
}

/// Relies on str::trim_end: removes the trailing characters that have the
/// Unicode White_Space property.
#[verifier::external_body]
pub(crate) fn trim_end(s: &str) -> (r: String)
    ensures
        r@ == trimmed_end(s@),
{
    s.trim_end().to_string()
}

/// A line of playable events: the measure, the channel and one keysound ID
/// per slot.
#[derive(Debug, Clone)]
pub struct Note {
    pub measure: u32,
    pub channel: u32,
    pub keysounds: Vec<u64>,
}

impl Note {
    /// The note can be written back as text: a three-digit measure and
    /// two-character channel and slots.
    pub open spec fn wf(&self) -> bool {
        &&& self.measure < 1000
        &&& self.channel < ID_LIMIT
        &&& forall|i: int| 0 <= i < self.keysounds@.len() ==> #[trigger] self.keysounds@[i] < ID_LIMIT
    }

    /// Whether the text has the note-line header.
    pub fn line_is_note(line: &str) -> (r: bool)
        ensures
            r == is_note_header(line@),
    {
        NoteGrammar::new().matches(line)
    }

    /// Parses a note line; `None` when the text is not one.
    pub fn new(line: &str) -> (r: Option<Note>)
        ensures
            r is Some <==> is_note_text(line@),
            r is Some ==> r->0.wf() && r->0.measure == measure_of(line@) && r->0.channel
                == channel_of(line@) && r->0.keysounds@ == slots_of(line@),
    {
        Self::parse(&NoteGrammar::new(), line)
    }

    /// Parses a note line with a compiled grammar; `None` when the text is
    /// not one.
    pub fn parse(grammar: &NoteGrammar, line: &str) -> (r: Option<Note>)
        ensures
            r is Some <==> is_note_text(line@),
            r is Some ==> r->0.wf() && r->0.measure == measure_of(line@) && r->0.channel
                == channel_of(line@) && r->0.keysounds@ == slots_of(line@),
    {
        if !grammar.matches(line) {
            return None;
        }
        let n = line.unicode_len();
        let mut i: usize = 1;
        while i < 4
            invariant
                n == line@.len(),
                is_note_header(line@),
                1 <= i <= 4,
                forall|j: int| 1 <= j < i ==> is_decimal(#[trigger] line@[j]),
            decreases 4 - i,
        {
            let c = line.get_char(i);
            if !('0' <= c && c <= '9') {
                return None;
            }
            i = i + 1;
        }
        let measure = (line.get_char(1) as u32 - '0' as u32) * 100 + (line.get_char(2) as u32
            - '0' as u32) * 10 + (line.get_char(3) as u32 - '0' as u32);
        let channel_token = line.substring_char(4, 6);
        proof {
            assert forall|j: int| 0 <= j < channel_token@.len() implies is_digit36(
                #[trigger] channel_token@[j],
            ) by {
                assert(channel_token@[j] == line@[j + 4]);
            }
            lemma_token_value(channel_token@);
        }
        let channel = match as_id(channel_token) {
            Ok(v) => v as u32,
            Err(_) => {
                return None;
            },
        };
        if (n - 7) % 2 != 0 {
            proof {
                assert(body_of(line@).len() == n - 7);
            }
            return None;
        }
        let body = line.substring_char(7, n);
        let count = (n - 7) / 2;
        let mut keysounds: Vec<u64> = Vec::new();
        let mut k: usize = 0;
        while k < count
            invariant
                n == line@.len(),
                body@ == body_of(line@),
                2 * count == body@.len(),
                body@.len() == n - 7,
                0 <= k <= count,
                keysounds@.len() == k,
                forall|j: int| 0 <= j < 2 * k ==> is_digit36(#[trigger] body@[j]),
                forall|j: int|
                    0 <= j < k ==> #[trigger] keysounds@[j] == numeral_value(token_at(body@, j))
                        as u64 && keysounds@[j] < ID_LIMIT,
            decreases count - k,
        {
            let token = body.substring_char(2 * k, 2 * k + 2);
            match as_id(token) {
                Ok(v) => {
                    proof {
                        assert(token@ == token_at(body@, k as int));
                        lemma_token_value(token@);
                        assert forall|j: int| 0 <= j < 2 * k + 2 implies is_digit36(
                            #[trigger] body@[j],
                        ) by {
                            if j >= 2 * k {
                                assert(body@[j] == token@[j - 2 * k]);
                            }
                        }
                    }
                    keysounds.push(v);
                },
                Err(_) => {
                    proof {
                        assert(token@ == token_at(body@, k as int));
                        lemma_token_value(token@);
                        let j = choose|j: int| 0 <= j < 2 && !is_digit36(#[trigger] token@[j]);
                        assert(body@[2 * k + j] == token@[j]);
                    }
                    return None;
                },
            }
            k = k + 1;
        }
        proof {
            assert(keysounds@ =~= slots_of(line@));
        }
        Some(Note { measure, channel, keysounds })
    }
}

/// Every occurrence of `old_id` in `slots` changed to `new_id`.
pub open spec fn replaced(slots: Seq<u64>, old_id: u64, new_id: u64) -> Seq<u64> {
    slots.map_values(|k: u64| if k == old_id { new_id } else { k })
}

pub open spec fn strictly_increasing(s: Seq<u64>) -> bool {
    forall|i: int, j: int| 0 <= i < j < s.len() ==> s[i] < s[j]
}

fn decimal_digit(d: u32) -> (c: char)
    requires
        d < 10,
    ensures
        c == digit_char(d as int),
{
    ((d as u8) + 48u8) as char
}

impl Note {
    /// The canonical text of the note line.
    pub fn to_string(&self) -> (r: String)
        requires
            self.wf(),
        ensures
            r@ == note_text(self.measure, self.channel, self.keysounds@),
    {
        let mut text = String::new();
        push_char(&mut text, '#');
        push_char(&mut text, decimal_digit(self.measure / 100));
        push_char(&mut text, decimal_digit(self.measure / 10 % 10));
        push_char(&mut text, decimal_digit(self.measure % 10));
        let channel = as_str(self.channel as u64);
        text.append(channel.as_str());
        push_char(&mut text, ':');
        let ghost head = text@;
        assert(head =~= seq!['#'] + measure_text(self.measure as int) + id_token(
            self.channel as int,
        ) + seq![':']);
        let mut i: usize = 0;
        while i < self.keysounds.len()
            invariant
                self.wf(),
                0 <= i <= self.keysounds@.len(),
                text@ == head + slots_text(self.keysounds@.take(i as int)),
            decreases self.keysounds@.len() - i,
        {
            let token = as_str(self.keysounds[i]);
            text.append(token.as_str());
            proof {
                let t = self.keysounds@.take(i as int + 1);
                assert(t.drop_last() =~= self.keysounds@.take(i as int));
                assert(text@ =~= head + slots_text(t));
            }
            i = i + 1;
        }
        assert(self.keysounds@.take(i as int) =~= self.keysounds@);
        text
    }

    /// Changes every slot holding `old_id` to `new_id`, unless the channel is
    /// protected: then nothing changes and the refusal is reported as `None`.
    pub fn replace_keysounds(&mut self, old_id: u64, new_id: u64) -> (r: Option<()>)
        requires
            old(self).wf(),
            new_id < ID_LIMIT,
        ensures
            r is Some <==> channel_eligible(old(self).channel),
            final(self).measure == old(self).measure,
            final(self).channel == old(self).channel,
            r is Some ==> final(self).keysounds@ == replaced(old(self).keysounds@, old_id, new_id),
            r is None ==> final(self).keysounds@ == old(self).keysounds@,
            final(self).wf(),
    {
        if self.channel < LOW_CHANNEL_LIMIT && self.channel % 36 != 1 {
            return None;
        }
        let ghost before = self.keysounds@;
        let mut i: usize = 0;
        while i < self.keysounds.len()
            invariant
                self.measure == old(self).measure,
                self.channel == old(self).channel,
                before == old(self).keysounds@,
                self.keysounds@.len() == before.len(),
                0 <= i <= before.len(),
                new_id < ID_LIMIT,
                forall|j: int| 0 <= j < before.len() ==> #[trigger] before[j] < ID_LIMIT,
                forall|j: int|
                    0 <= j < before.len() ==> #[trigger] self.keysounds@[j] == (if j < i {
                        if before[j] == old_id {
                            new_id
                        } else {
                            before[j]
                        }
                    } else {
                        before[j]
                    }),
            decreases before.len() - i,
        {
            if self.keysounds[i] == old_id {
                self.keysounds[i] = new_id;
            }
            i = i + 1;
        }
        assert(self.keysounds@ =~= replaced(before, old_id, new_id));
        Some(())
    }

    pub fn channel(&self) -> (r: u32)
        ensures
            r == self.channel,
    {
        self.channel
    }

    pub fn keysounds(&self) -> (r: &[u64])
        ensures
            r@ == self.keysounds@,
    {
        self.keysounds.as_slice()
    }

    /// The distinct IDs in the slots, in increasing order.
    pub fn keysounds_used(&self) -> (r: Vec<u64>)
        ensures
            strictly_increasing(r@),
            forall|id: u64| r@.contains(id) <==> self.keysounds@.contains(id),
    {
        let mut used: Vec<u64> = Vec::new();
        let mut i: usize = 0;
        while i < self.keysounds.len()
            invariant
                0 <= i <= self.keysounds@.len(),
                strictly_increasing(used@),
                forall|id: u64| used@.contains(id) <==> self.keysounds@.take(i as int).contains(id),
            decreases self.keysounds@.len() - i,
        {
            let id = self.keysounds[i];
            let mut p: usize = 0;
            while p < used.len() && used[p] < id
                invariant
                    0 <= p <= used@.len(),
                    forall|j: int| 0 <= j < p ==> used@[j] < id,
                decreases used@.len() - p,
            {
                p = p + 1;
            }
            let ghost prev = self.keysounds@.take(i as int);
            assert(self.keysounds@.take(i as int + 1) =~= prev.push(id));
            if p < used.len() && used[p] == id {
                assert(used@[p as int] == id);
                assert forall|x: u64| used@.contains(x) <==> prev.contains(x) || x == id by {
                    if x == id {
                        assert(used@.contains(id));
                    }
                }
            } else {
                let ghost u = used@;
                used.insert(p, id);
                proof {
                    assert forall|a: int, b: int| 0 <= a < b < used@.len() implies used@[a]
                        < used@[b] by {
                        if a < p as int && b > p as int {
                            assert(used@[b] == u[b - 1]);
                            if b - 1 > p as int {
                                assert(u[p as int] < u[b - 1]);
                            }
                        } else if a > p as int {
                            assert(used@[a] == u[a - 1] && used@[b] == u[b - 1]);
                        } else if b < p as int {
                        } else if a == p as int {
                            assert(used@[b] == u[b - 1]);
                            if b - 1 > p as int {
                                assert(u[p as int] < u[b - 1]);
                            }
                        }
                    }
                    assert forall|x: u64| used@.contains(x) <==> u.contains(x) || x == id by {
                        if used@.contains(x) {
                            let k = choose|k: int| 0 <= k < used@.len() && used@[k] == x;
                            if k < p as int {
                                assert(u[k] == x);
                            } else if k > p as int {
                                assert(u[k - 1] == x);
                            }
                        }
                        if u.contains(x) {
                            let k = choose|k: int| 0 <= k < u.len() && u[k] == x;
                            if k < p as int {
                                assert(used@[k] == x);
                            } else {
                                assert(used@[k + 1] == x);
                            }
                        }
                        if x == id {
                            assert(used@[p as int] == x);
                        }
                    }
                    assert forall|x: u64| used@.contains(x) <==> prev.contains(x) || x == id by {
                        assert(used@.contains(x) <==> u.contains(x) || x == id);
                        assert(u.contains(x) <==> prev.contains(x));
                    }
                }
            }
            proof {
                assert forall|x: u64| prev.push(id).contains(x) <==> prev.contains(x) || x == id by {
                    if prev.push(id).contains(x) {
                        let k = choose|k: int| 0 <= k < prev.len() + 1 && prev.push(id)[k] == x;
                        if k < prev.len() {
                            assert(prev[k] == x);
                        }
                    }
                    if prev.contains(x) {
                        let k = choose|k: int| 0 <= k < prev.len() && prev[k] == x;
                        assert(prev.push(id)[k] == x);
                    }
                    if x == id {
                        assert(prev.push(id)[prev.len() as int] == x);
                    }
                }
                assert forall|x: u64| used@.contains(x) <==> self.keysounds@.take(i + 1).contains(
                    x,
                ) by {
                    assert(used@.contains(x) <==> prev.contains(x) || x == id);
                }
            }
            i = i + 1;
        }
        assert(self.keysounds@.take(i as int) =~= self.keysounds@);
        used
    }

    /// Whether any slot holds `keysound_id`.
    pub fn uses_keysound(&self, keysound_id: u64) -> (r: bool)
        ensures
            r == self.keysounds@.contains(keysound_id),
    {
        let mut i: usize = 0;
        while i < self.keysounds.len()
            invariant
                0 <= i <= self.keysounds@.len(),
                forall|j: int| 0 <= j < i ==> self.keysounds@[j] != keysound_id,
            decreases self.keysounds@.len() - i,
        {
            if self.keysounds[i] == keysound_id {
                return true;
            }
            i = i + 1;
        }
        false
    }
}

/// A line kept as text: headers, control statements, comments and anything
/// that does not parse as a note line.
#[derive(Debug, Clone)]
pub struct GenericLine {
    pub line: String,
}

impl GenericLine {
    pub fn new(line: String) -> (r: Self)
        ensures
            r.line@ == line@,
    {
        Self { line }
    }

    /// Bytes 4 to 6 of the line: the channel of a line shaped like a note
    /// line.
    pub fn get_channel(&self) -> (r: &str)
        requires
            encode_utf8(self.line@).len() >= 6,
            is_char_boundary(encode_utf8(self.line@), 4),
            is_char_boundary(encode_utf8(self.line@), 6),
        ensures
            r.spec_bytes() == encode_utf8(self.line@).subrange(4, 6),
    {
        let text = self.line.as_str();
        let (front, _) = text.split_at(6);
        proof {
            let bytes = encode_utf8(self.line@);
            encode_utf8_valid_utf8(self.line@);
            encode_utf8_valid_utf8(front@);
            is_char_boundary_iff_not_is_continuation_byte(bytes, 4);
            is_char_boundary_iff_not_is_continuation_byte(front.spec_bytes(), 4);
            assert(front.spec_bytes()[4] == bytes[4]);
        }
        let (_, channel) = front.split_at(4);
        channel
    }

    pub fn line(&self) -> (r: &str)
        ensures
            r@ == self.line@,
    {
        self.line.as_str()
    }

    /// Length of the text in bytes.
    pub fn len(&self) -> (r: usize)
        ensures
            r == encode_utf8(self.line@).len() as usize,
    {
        self.line.as_str().len()
    }

    /// True when the line holds no text.
    pub fn is_empty(&self) -> (r: bool)
        ensures
            r == (self.line@.len() == 0),
    {
        self.line.as_str().is_empty()
    }

    pub fn line_mut(&mut self) -> (r: &mut String)
        ensures
            *r == old(self).line,
            final(self).line == *final(r),
    {
        &mut self.line
    }
}

/// One line of a chart.
#[derive(Debug, Clone)]
pub enum Line {
    Generic(GenericLine),
    Note(Note),
}

/// `l` is what classifying the text `s` yields: a note line when `s` parses
/// as one, else the text kept as it is.
pub open spec fn is_classified(l: Line, s: Seq<char>) -> bool {
    if is_note_text(s) {
        &&& l is Note
        &&& l->Note_0.measure == measure_of(s)
        &&& l->Note_0.channel == channel_of(s)
        &&& l->Note_0.keysounds@ == slots_of(s)
    } else {
        l is Generic && l->Generic_0.line@ == s
    }
}

/// The text a line is written back as.
pub open spec fn line_text(l: Line) -> Seq<char> {
    match l {
        Line::Generic(g) => trimmed_end(g.line@),
        Line::Note(n) => note_text(n.measure, n.channel, n.keysounds@),
    }
}

impl Line {
    pub open spec fn wf(&self) -> bool {
        match self {
            Line::Generic(_) => true,
            Line::Note(n) => n.wf(),
        }
    }

    /// Classifies a line of text. Never fails: text that resembles a note
    /// line but does not parse is kept as a generic line.
    pub fn new(line: &str) -> (r: Self)
        ensures
            is_classified(r, line@),
            r.wf(),
    {
        Self::classify(&NoteGrammar::new(), line)
    }

    /// Classifies a line of text with a compiled grammar.
    pub fn classify(grammar: &NoteGrammar, line: &str) -> (r: Self)
        ensures
            is_classified(r, line@),
            r.wf(),
    {
        if grammar.matches(line) {
            if let Some(new_note) = Note::parse(grammar, line) {
                return Line::Note(new_note);
            }
        } else {
            assert(!is_note_text(line@));
        }
        Line::Generic(GenericLine::new(line.to_owned()))
    }

    pub fn as_note(&self) -> (r: Option<&Note>)
        ensures
            r is Some <==> self is Note,
            r is Some ==> *r->0 == self->Note_0,
    {
        match self {
            Line::Note(n) => Some(n),
            _ => None,
        }
    }

    /// The text of the line: a note line re-written from its fields, any
    /// other line without its trailing white space.
    pub fn to_string(&self) -> (r: String)
        requires
            self.wf(),
        ensures
            r@ == line_text(*self),
    {
        match self {
            Line::Generic(generic_line) => trim_end(generic_line.line()),
            Line::Note(note) => note.to_string(),
        }
    }
}

/// A note line's text has upper-case letters only, so that writing it back
/// reproduces it.
pub open spec fn is_canonical_note_text(s: Seq<char>) -> bool {
    &&& is_note_text(s)
    &&& forall|i: int| 4 <= i < s.len() ==> !('a' <= #[trigger] s[i] && s[i] <= 'z')
}

proof fn lemma_digit_round_trip(c: char)
    requires
        is_digit36(c),
        !('a' <= c && c <= 'z'),
    ensures
        digit_char(digit_value(c)) == c,
        0 <= digit_value(c) < 36,
{
}

/// Reading an upper-case two-character token and writing its value back
/// gives the same token.
pub proof fn lemma_token_round_trip(t: Seq<char>)
    requires
        t.len() == 2,
        all_digits36(t),
        !('a' <= t[0] && t[0] <= 'z'),
        !('a' <= t[1] && t[1] <= 'z'),
    ensures
        id_token(numeral_value(t)) == t,
        0 <= numeral_value(t) < ID_LIMIT,
{
    lemma_token_value(t);
    assert(is_digit36(t[0]) && is_digit36(t[1]));
    lemma_digit_round_trip(t[0]);
    lemma_digit_round_trip(t[1]);
    let v = numeral_value(t);
    assert(t.drop_last().drop_last() =~= Seq::<char>::empty());
    assert(numeral_value(t.drop_last().drop_last()) == 0);
    assert(t.drop_last().last() == t[0]);
    assert(numeral_value(t.drop_last()) == digit_value(t[0]));
    assert(v == digit_value(t[0]) * 36 + digit_value(t[1]));
    assert(v / 36 == digit_value(t[0]) && v % 36 == digit_value(t[1])) by (nonlinear_arith)
        requires
            v == digit_value(t[0]) * 36 + digit_value(t[1]),
            0 <= digit_value(t[0]) < 36,
            0 <= digit_value(t[1]) < 36,
    ;
    assert(id_token(v) =~= t);
}

proof fn lemma_slots_round_trip(s: Seq<char>, k: int)
    requires
        is_canonical_note_text(s),
        0 <= k <= body_of(s).len() / 2,
    ensures
        slots_text(slots_of(s).take(k)) == body_of(s).take(2 * k),
    decreases k,
{
    let body = body_of(s);
    if k == 0 {
        assert(slots_of(s).take(0) =~= Seq::<u64>::empty());
        assert(body.take(0) =~= Seq::<char>::empty());
    } else {
        lemma_slots_round_trip(s, k - 1);
        let t = token_at(body, k - 1);
        assert(t[0] == s[7 + 2 * (k - 1)] && t[1] == s[7 + 2 * (k - 1) + 1]);
        assert(is_digit36(body[2 * (k - 1)]) && is_digit36(body[2 * (k - 1) + 1]));
        assert(all_digits36(t));
        lemma_token_round_trip(t);
        assert(slots_of(s).take(k).drop_last() =~= slots_of(s).take(k - 1));
        assert(body.take(2 * k) =~= body.take(2 * (k - 1)) + t);
    }
}

/// Parsing a note line written with upper-case letters and writing the
/// note back gives the same text.
pub proof fn lemma_note_round_trip(s: Seq<char>)
    requires
        is_canonical_note_text(s),
    ensures
        note_text(measure_of(s) as u32, channel_of(s) as u32, slots_of(s)) == s,
{
    let m = measure_of(s);
    assert(is_decimal(s[1]) && is_decimal(s[2]) && is_decimal(s[3]));
    let (a, b, c) = (digit_value(s[1]), digit_value(s[2]), digit_value(s[3]));
    assert(m / 100 == a && m / 10 % 10 == b && m % 10 == c && 0 <= m < 1000) by (nonlinear_arith)
        requires
            m == a * 100 + b * 10 + c,
            0 <= a < 10,
            0 <= b < 10,
            0 <= c < 10,
    ;
    lemma_digit_round_trip(s[1]);
    lemma_digit_round_trip(s[2]);
    lemma_digit_round_trip(s[3]);
    let ch = s.subrange(4, 6);
    assert(is_digit36(s[4]) && is_digit36(s[5]));
    assert(all_digits36(ch));
    lemma_token_round_trip(ch);
    let body = body_of(s);
    lemma_slots_round_trip(s, body.len() as int / 2);
    assert(slots_of(s).take(body.len() as int / 2) =~= slots_of(s));
    assert(body.take(body.len() as int) =~= body);
    assert(s =~= seq!['#'] + measure_text(m) + ch + seq![':'] + body);
}

/// Text with the note-line header whose measure is not three decimal digits
/// is not a note line: it is kept as a generic line, and written back
/// unchanged unless it ends in white space.
pub proof fn lemma_malformed_measure_is_generic(s: Seq<char>, l: Line)
    requires
        is_note_header(s),
        !(is_decimal(s[1]) && is_decimal(s[2]) && is_decimal(s[3])),
        is_classified(l, s),
    ensures
        l is Generic,
        l->Generic_0.line@ == s,
        !is_white_space(s.last()) ==> line_text(l) == s,
{
}

} // verus!
