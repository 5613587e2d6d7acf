use vstd::prelude::*;
use vstd::utf8::encode_utf8;

use crate::bms::{
    all_digits36, numeral_value, as_id, as_str, decode_spec, id_token, lemma_token_value, push_char, DecodeError, ID_LIMIT,
};
use crate::line::{
    is_canonical_note_text, is_note_text, is_white_space, lemma_note_round_trip,
    lemma_token_round_trip, channel_eligible, is_classified, line_text, replaced, trim_end, trimmed_end, Line, NoteGrammar,
};

verus! {

/// Why a declaration line could not be read.
#[derive(Debug, Clone, Copy, PartialEq, Eq, Structural)]
pub enum DeclarationError {
    /// The line ends before the file name.
    Truncated,
    /// The two characters after `#WAV` are not a base-36 ID.
    InvalidId(DecodeError),
}

/// A line that declares a keysound starts with `#WAV`.
pub open spec fn is_declaration_line(s: Seq<char>) -> bool {
    &&& s.len() >= 4
    &&& s[0] == '#'
    &&& s[1] == 'W'
    &&& s[2] == 'A'
    &&& s[3] == 'V'
}

/// What reading a declaration line yields: the ID from the two characters
/// after `#WAV`, and the file name from the eighth character on.
pub open spec fn declaration_spec(s: Seq<char>) -> Result<(u64, Seq<char>), DeclarationError> {
    if s.len() < 7 {
        Err(DeclarationError::Truncated)
    } else {
        match decode_spec(s.subrange(4, 6)) {
            Ok(id) => Ok((id, s.subrange(7, s.len() as int))),
            Err(e) => Err(DeclarationError::InvalidId(e)),
        }
    }
}

/// A keysound declaration: an ID and the audio file it names.
#[derive(Debug, Clone)]
pub struct Keysound {
    pub keysound_id: u64,
    pub keysound_file: String,
}

pub open spec fn keysound_model(k: Keysound) -> (u64, Seq<char>) {
    (k.keysound_id, k.keysound_file@)
}

/// The text of a declaration: `#WAV`, the ID token, a space and the file name.
pub open spec fn declaration_text(id: u64, file: Seq<char>) -> Seq<char> {
    seq!['#', 'W', 'A', 'V'] + id_token(id as int) + seq![' '] + file
}

impl Keysound {
    pub open spec fn wf(&self) -> bool {
        self.keysound_id < ID_LIMIT
    }

    /// Reads a declaration line.
    pub fn from_line(line: &str) -> (r: Result<Self, DeclarationError>)
        ensures
            r matches Ok(k) ==> declaration_spec(line@) == Ok::<_, DeclarationError>(
                keysound_model(k),
            ) && k.wf(),
            r matches Err(e) ==> declaration_spec(line@) == Err::<(u64, Seq<char>), _>(e),
    {
        let n = line.unicode_len();
        if n < 7 {
            return Err(DeclarationError::Truncated);
        }
        let keysound_id = line.substring_char(4, 6);
        let keysound_file = line.substring_char(7, n).to_owned();
        match as_id(keysound_id) {
            Ok(id) => {
                proof {
                    lemma_token_value(keysound_id@);
                }
                Ok(Keysound { keysound_id: id, keysound_file })
            },
            Err(e) => Err(DeclarationError::InvalidId(e)),
        }
    }

    /// The declaration line for this keysound.
    pub fn to_string(&self) -> (r: String)
        requires
            self.wf(),
        ensures
            r@ == declaration_text(self.keysound_id, self.keysound_file@),
    {
        let mut text = String::new();
        push_char(&mut text, '#');
        push_char(&mut text, 'W');
        push_char(&mut text, 'A');
        push_char(&mut text, 'V');
        let token = as_str(self.keysound_id);
        text.append(token.as_str());
        push_char(&mut text, ' ');
        text.append(self.keysound_file.as_str());
        assert(text@ =~= declaration_text(self.keysound_id, self.keysound_file@));
        text
    }
}

/// The lines of a chart as it is read: each without its trailing white space.
pub open spec fn chart_lines(lines: Seq<String>) -> Seq<Seq<char>> {
    lines.map_values(|l: String| trimmed_end(l@))
}

/// Line `i` belongs to the declaration block: it declares a keysound, and
/// no line before it that declares nothing follows a declaration.
pub open spec fn in_declaration_block(lines: Seq<Seq<char>>, i: int) -> bool {
    &&& 0 <= i < lines.len()
    &&& is_declaration_line(lines[i])
    &&& forall|k: int, j: int|
        0 <= k < j < i ==> !(is_declaration_line(#[trigger] lines[k]) && !is_declaration_line(
            #[trigger] lines[j],
        ))
}

/// A chart split in three: the lines before the first declaration, the
/// declarations, and every line after the declaration block.
#[derive(Debug, Clone)]
pub struct BMSFile {
    pub head: Vec<Line>,
    pub keysounds: Vec<Keysound>,
    pub tail: Vec<Line>,
}

impl BMSFile {
    pub open spec fn wf(&self) -> bool {
        &&& forall|i: int| 0 <= i < self.head@.len() ==> (#[trigger] self.head@[i]).wf()
        &&& forall|i: int| 0 <= i < self.keysounds@.len() ==> (#[trigger] self.keysounds@[i]).wf()
        &&& forall|i: int| 0 <= i < self.tail@.len() ==> (#[trigger] self.tail@[i]).wf()
    }

    /// The chart is what parsing `lines` yields: the head holds the lines
    /// before the first declaration, the declarations the contiguous block
    /// that starts there, and the tail every line after that block.
    pub open spec fn is_parse_of(&self, lines: Seq<Seq<char>>) -> bool {
        let a = self.head@.len() as int;
        let b = a + self.keysounds@.len();
        &&& b + self.tail@.len() == lines.len()
        &&& forall|i: int|
            0 <= i < a ==> !is_declaration_line(#[trigger] lines[i]) && is_classified(
                self.head@[i],
                lines[i],
            )
        &&& forall|i: int|
            a <= i < b ==> is_declaration_line(#[trigger] lines[i]) && declaration_spec(lines[i])
                == Ok::<_, DeclarationError>(keysound_model(self.keysounds@[i - a]))
        &&& b < lines.len() ==> !is_declaration_line(lines[b]) && a < b
        &&& forall|i: int| b <= i < lines.len() ==> is_classified(self.tail@[i - b], #[trigger] lines[i])
    }

    /// Parses the lines of a chart, each read without its trailing white
    /// space. A declaration line in the block that cannot be read fails the
    /// whole parse; other lines never do.
    pub fn from_lines(lines: &Vec<String>) -> (r: Result<Self, DeclarationError>)
        ensures
            r is Err <==> exists|i: int|
                in_declaration_block(chart_lines(lines@), i) && declaration_spec(
                    #[trigger] chart_lines(lines@)[i],
                ) is Err,
            r matches Err(e) ==> exists|i: int|
                in_declaration_block(chart_lines(lines@), i) && declaration_spec(
                    #[trigger] chart_lines(lines@)[i],
                ) == Err::<(u64, Seq<char>), _>(e),
            r matches Ok(f) ==> f.wf() && f.is_parse_of(chart_lines(lines@)),
    {
        let ghost ls = chart_lines(lines@);
        let mut head: Vec<Line> = Vec::new();
        let mut keysounds: Vec<Keysound> = Vec::new();
        let mut tail: Vec<Line> = Vec::new();
        let mut in_tail = false;
        let grammar = NoteGrammar::new();
        let mut i: usize = 0;
        while i < lines.len()
            invariant
                ls == chart_lines(lines@),
                0 <= i <= lines@.len(),
                head@.len() + keysounds@.len() + tail@.len() == i,
                forall|j: int|
                    0 <= j < head@.len() ==> !is_declaration_line(#[trigger] ls[j]) && is_classified(
                        head@[j],
                        ls[j],
                    ) && head@[j].wf(),
                forall|j: int|
                    head@.len() <= j < head@.len() + keysounds@.len() ==> is_declaration_line(
                        #[trigger] ls[j],
                    ) && declaration_spec(ls[j]) == Ok::<_, DeclarationError>(
                        keysound_model(keysounds@[j - head@.len()]),
                    ) && keysounds@[j - head@.len()].wf(),
                forall|j: int|
                    head@.len() + keysounds@.len() <= j < i ==> is_classified(
                        tail@[j - head@.len() - keysounds@.len()],
                        #[trigger] ls[j],
                    ) && tail@[j - head@.len() - keysounds@.len()].wf(),
                in_tail ==> keysounds@.len() > 0 && tail@.len() > 0 && !is_declaration_line(
                    ls[head@.len() + keysounds@.len() as int],
                ),
                !in_tail ==> tail@.len() == 0,
                !in_tail && keysounds@.len() == 0 ==> head@.len() == i,
            decreases lines@.len() - i,
        {
            let trimmed = trim_end(lines[i].as_str());
            let line = trimmed.as_str();
            assert(line@ == ls[i as int]);
            let is_declaration = line.unicode_len() >= 4 && line.get_char(0) == '#'
                && line.get_char(1) == 'W' && line.get_char(2) == 'A' && line.get_char(3) == 'V';
            if in_tail {
                tail.push(Line::classify(&grammar, line));
            } else if is_declaration {
                match Keysound::from_line(line) {
                    Ok(k) => keysounds.push(k),
                    Err(e) => {
                        proof {
                            assert(in_declaration_block(ls, i as int));
                        }
                        return Err(e);
                    },
                }
            } else if keysounds.len() == 0 {
                head.push(Line::classify(&grammar, line));
            } else {
                in_tail = true;
                tail.push(Line::classify(&grammar, line));
            }
            i = i + 1;
        }
        let f = BMSFile { head, keysounds, tail };
        proof {
            let a = f.head@.len() as int;
            let b = a + f.keysounds@.len();
            assert forall|j: int| in_declaration_block(ls, j) implies declaration_spec(
                #[trigger] ls[j],
            ) is Ok by {
                if j >= b {
                    if j > b {
                        assert(is_declaration_line(ls[a]) && !is_declaration_line(ls[b]));
                    }
                }
            }
            assert forall|j: int| 0 <= j < f.head@.len() implies (#[trigger] f.head@[j]).wf() by {
                assert(is_classified(f.head@[j], ls[j]));
            }
            assert forall|j: int| 0 <= j < f.keysounds@.len() implies (
            #[trigger] f.keysounds@[j]).wf() by {
                assert(is_declaration_line(ls[j + a]));
            }
            assert forall|j: int| 0 <= j < f.tail@.len() implies (#[trigger] f.tail@[j]).wf() by {
                assert(is_classified(f.tail@[j], ls[j + b]));
            }
            assert(f.is_parse_of(ls));
        }
        Ok(f)
    }
}

/// Some note line of `lines` has a slot holding `id`.
pub open spec fn lines_use(lines: Seq<Line>, id: u64) -> bool {
    exists|j: int|
        0 <= j < lines.len() && #[trigger] lines[j] is Note && lines[j]->Note_0.keysounds@.contains(
            id,
        )
}

/// Some declaration of `keysounds` has the ID `id`.
pub open spec fn declares(keysounds: Seq<Keysound>, id: u64) -> bool {
    exists|j: int| 0 <= j < keysounds.len() && (#[trigger] keysounds[j]).keysound_id == id
}

/// `after` is `before` with keysound `old_id` rewritten to `new_id`: note
/// lines on an eligible channel have their slots replaced, every other line
/// stays as it was.
pub open spec fn is_rewrite_of(after: Line, before: Line, old_id: u64, new_id: u64) -> bool {
    match before {
        Line::Generic(_) => after == before,
        Line::Note(n) => {
            &&& after is Note
            &&& after->Note_0.measure == n.measure
            &&& after->Note_0.channel == n.channel
            &&& after->Note_0.keysounds@ == if channel_eligible(n.channel) {
                replaced(n.keysounds@, old_id, new_id)
            } else {
                n.keysounds@
            }
        },
    }
}

/// The text lines of a chart: the head, the declarations, then the tail.
pub open spec fn chart_text(f: BMSFile) -> Seq<Seq<char>> {
    f.head@.map_values(|l: Line| line_text(l)) + f.keysounds@.map_values(
        |k: Keysound| declaration_text(k.keysound_id, k.keysound_file@),
    ) + f.tail@.map_values(|l: Line| line_text(l))
}

/// Lines joined with a newline between each two.
pub open spec fn joined(lines: Seq<Seq<char>>) -> Seq<char>
    decreases lines.len(),
{
    if lines.len() == 0 {
        Seq::empty()
    } else if lines.len() == 1 {
        lines[0]
    } else {
        joined(lines.drop_last()) + seq!['\n'] + lines.last()
    }
}

fn copy_keysound(k: &Keysound) -> (r: Keysound)
    ensures
        r == *k,
{
    Keysound { keysound_id: k.keysound_id, keysound_file: k.keysound_file.clone() }
}

fn push_line_texts(out: &mut Vec<String>, lines: &Vec<Line>)
    requires
        forall|i: int| 0 <= i < lines@.len() ==> (#[trigger] lines@[i]).wf(),
    ensures
        final(out)@.map_values(|s: String| s@) == old(out)@.map_values(|s: String| s@)
            + lines@.map_values(|l: Line| line_text(l)),
{
    let ghost start = out@.map_values(|s: String| s@);
    let mut i: usize = 0;
    while i < lines.len()
        invariant
            0 <= i <= lines@.len(),
            forall|i: int| 0 <= i < lines@.len() ==> (#[trigger] lines@[i]).wf(),
            out@.map_values(|s: String| s@) == start + lines@.take(i as int).map_values(
                |l: Line| line_text(l),
            ),
        decreases lines@.len() - i,
    {
        let text = lines[i].to_string();
        let ghost prev = out@;
        out.push(text);
        proof {
            assert(lines@.take(i + 1).map_values(|l: Line| line_text(l)) =~= lines@.take(
                i as int,
            ).map_values(|l: Line| line_text(l)).push(line_text(lines@[i as int])));
            assert(out@.map_values(|s: String| s@) =~= prev.map_values(|s: String| s@).push(
                text@,
            ));
        }
        i = i + 1;
    }
    assert(lines@.take(i as int) =~= lines@);
}

impl BMSFile {
    /// The chart as text lines: the head, each declaration, then the tail.
    pub fn to_lines(&self) -> (r: Vec<String>)
        requires
            self.wf(),
        ensures
            r@.map_values(|s: String| s@) == chart_text(*self),
    {
        let mut strings: Vec<String> = Vec::new();
        push_line_texts(&mut strings, &self.head);
        let ghost start = strings@.map_values(|s: String| s@);
        let mut i: usize = 0;
        while i < self.keysounds.len()
            invariant
                self.wf(),
                0 <= i <= self.keysounds@.len(),
                strings@.map_values(|s: String| s@) == start + self.keysounds@.take(
                    i as int,
                ).map_values(|k: Keysound| declaration_text(k.keysound_id, k.keysound_file@)),
            decreases self.keysounds@.len() - i,
        {
            let text = self.keysounds[i].to_string();
            let ghost prev = strings@;
            strings.push(text);
            proof {
                let k = self.keysounds@[i as int];
                assert(self.keysounds@.take(i + 1).map_values(
                    |k: Keysound| declaration_text(k.keysound_id, k.keysound_file@),
                ) =~= self.keysounds@.take(i as int).map_values(
                    |k: Keysound| declaration_text(k.keysound_id, k.keysound_file@),
                ).push(declaration_text(k.keysound_id, k.keysound_file@)));
                assert(strings@.map_values(|s: String| s@) =~= prev.map_values(|s: String| s@).push(
                    text@,
                ));
            }
            i = i + 1;
        }
        assert(self.keysounds@.take(i as int) =~= self.keysounds@);
        push_line_texts(&mut strings, &self.tail);
        assert(strings@.map_values(|s: String| s@) =~= chart_text(*self));
        strings
    }

    /// The chart's text as UTF-8 bytes, its lines joined by newlines.
    pub fn to_bytes(&self) -> (r: Vec<u8>)
        requires
            self.wf(),
        ensures
            r@ == encode_utf8(joined(chart_text(*self))),
    {
        let strings = self.to_lines();
        let ghost texts = strings@.map_values(|s: String| s@);
        let mut text = String::new();
        let mut i: usize = 0;
        while i < strings.len()
            invariant
                texts == strings@.map_values(|s: String| s@),
                0 <= i <= strings@.len(),
                text@ == joined(texts.take(i as int)),
            decreases strings@.len() - i,
        {
            if i > 0 {
                push_char(&mut text, '\n');
            }
            text.append(strings[i].as_str());
            proof {
                let t = texts.take(i + 1);
                assert(t.drop_last() =~= texts.take(i as int));
                if i == 0 {
                    assert(joined(texts.take(0)) =~= Seq::<char>::empty());
                }
                assert(text@ =~= joined(t));
            }
            i = i + 1;
        }
        assert(texts.take(i as int) =~= texts);
        text.as_str().as_bytes_vec()
    }

    /// Whether some declaration has the ID.
    pub fn has_keysound(&self, keysound_id: u64) -> (r: bool)
        ensures
            r == declares(self.keysounds@, keysound_id),
    {
        self.get_keysound(keysound_id).is_some()
    }

    /// Whether the keysound is declared and some note line of the tail uses it.
    pub fn uses_keysound(&self, keysound_id: u64) -> (r: bool)
        ensures
            r == (declares(self.keysounds@, keysound_id) && lines_use(self.tail@, keysound_id)),
    {
        if !self.has_keysound(keysound_id) {
            return false;
        }
        let mut i: usize = 0;
        while i < self.tail.len()
            invariant
                declares(self.keysounds@, keysound_id),
                0 <= i <= self.tail@.len(),
                forall|j: int|
                    0 <= j < i ==> !(#[trigger] self.tail@[j] is Note
                        && self.tail@[j]->Note_0.keysounds@.contains(keysound_id)),
            decreases self.tail@.len() - i,
        {
            if let Some(note) = self.tail[i].as_note() {
                if note.uses_keysound(keysound_id) {
                    assert(self.tail@[i as int] is Note);
                    assert(self.tail@[i as int]->Note_0.keysounds@.contains(keysound_id));
                    assert(lines_use(self.tail@, keysound_id));
                    return true;
                }
            }
            i = i + 1;
        }
        false
    }

    /// The declaration of an ID; where several declare it, the last one.
    pub fn get_keysound(&self, id: u64) -> (r: Option<&Keysound>)
        ensures
            r is Some <==> declares(self.keysounds@, id),
            r matches Some(k) ==> exists|j: int|
                0 <= j < self.keysounds@.len() && self.keysounds@[j] == *k && k.keysound_id == id
                    && forall|m: int| j < m < self.keysounds@.len() ==> (
                    #[trigger] self.keysounds@[m]).keysound_id != id,
    {
        let mut i: usize = self.keysounds.len();
        while i > 0
            invariant
                0 <= i <= self.keysounds@.len(),
                forall|m: int| i <= m < self.keysounds@.len() ==> (
                #[trigger] self.keysounds@[m]).keysound_id != id,
            decreases i,
        {
            i = i - 1;
            if self.keysounds[i].keysound_id == id {
                return Some(&self.keysounds[i]);
            }
        }
        None
    }

    /// The declaration of an ID, to change it in place; where several declare
    /// it, the last one.
    pub fn get_keysound_mut(&mut self, id: u64) -> (r: Option<&mut Keysound>)
        ensures
            r is Some <==> declares(old(self).keysounds@, id),
            r is None ==> *final(self) == *old(self),
            r matches Some(k) ==> exists|j: int|
                0 <= j < old(self).keysounds@.len() && old(self).keysounds@[j] == *k
                    && k.keysound_id == id && (forall|m: int|
                    j < m < old(self).keysounds@.len() ==> (
                    #[trigger] old(self).keysounds@[m]).keysound_id != id)
                    && final(self).keysounds@ == old(self).keysounds@.update(j, *final(k)),
            final(self).head == old(self).head,
            final(self).tail == old(self).tail,
    {
        let mut i: usize = self.keysounds.len();
        while i > 0
            invariant
                *self == *old(self),
                0 <= i <= self.keysounds@.len(),
                forall|m: int| i <= m < self.keysounds@.len() ==> (
                #[trigger] self.keysounds@[m]).keysound_id != id,
            decreases i,
        {
            i = i - 1;
            if self.keysounds[i].keysound_id == id {
                return Some(&mut self.keysounds[i]);
            }
        }
        None
    }

    /// The declarations, in file order.
    pub fn keysounds(&self) -> (r: &[Keysound])
        ensures
            r@ == self.keysounds@,
    {
        self.keysounds.as_slice()
    }

    /// The declarations whose ID no note line of the tail uses, in file order.
    pub fn get_unused_keysounds(&self) -> (r: Vec<Keysound>)
        ensures
            r@ == self.keysounds@.filter(|k: Keysound| !lines_use(self.tail@, k.keysound_id)),
    {
        let mut unused: Vec<Keysound> = Vec::new();
        let mut i: usize = 0;
        while i < self.keysounds.len()
            invariant
                0 <= i <= self.keysounds@.len(),
                unused@ == self.keysounds@.take(i as int).filter(
                    |k: Keysound| !lines_use(self.tail@, k.keysound_id),
                ),
            decreases self.keysounds@.len() - i,
        {
            let k = &self.keysounds[i];
            proof {
                assert(self.keysounds@.take(i + 1) =~= self.keysounds@.take(i as int).push(*k));
                self.keysounds@.take(i as int).lemma_filter_push(
                    *k,
                    |k: Keysound| !lines_use(self.tail@, k.keysound_id),
                );
                assert(declares(self.keysounds@, k.keysound_id));
            }
            if !self.uses_keysound(k.keysound_id) {
                unused.push(copy_keysound(k));
            }
            i = i + 1;
        }
        assert(self.keysounds@.take(i as int) =~= self.keysounds@);
        unused
    }

    /// Removes every declaration of the ID; the lines stay as they are.
    pub fn remove_keysound(&mut self, keysound_id: u64)
        ensures
            final(self).keysounds@ == old(self).keysounds@.filter(
                |k: Keysound| k.keysound_id != keysound_id,
            ),
            final(self).head == old(self).head,
            final(self).tail == old(self).tail,
            old(self).wf() ==> final(self).wf(),
    {
        let mut kept: Vec<Keysound> = Vec::new();
        let mut i: usize = 0;
        while i < self.keysounds.len()
            invariant
                0 <= i <= self.keysounds@.len(),
                kept@ == self.keysounds@.take(i as int).filter(
                    |k: Keysound| k.keysound_id != keysound_id,
                ),
            decreases self.keysounds@.len() - i,
        {
            let k = &self.keysounds[i];
            proof {
                assert(self.keysounds@.take(i + 1) =~= self.keysounds@.take(i as int).push(*k));
                self.keysounds@.take(i as int).lemma_filter_push(
                    *k,
                    |k: Keysound| k.keysound_id != keysound_id,
                );
            }
            if k.keysound_id != keysound_id {
                kept.push(copy_keysound(k));
            }
            i = i + 1;
        }
        assert(self.keysounds@.take(i as int) =~= self.keysounds@);
        proof {
            let p = |k: Keysound| k.keysound_id != keysound_id;
            assert forall|j: int|
                0 <= j < kept@.len() && self.wf() implies (#[trigger] kept@[j]).wf() by {
                self.keysounds@.lemma_filter_contains_rev(p, kept@[j]);
                assert(self.keysounds@.filter(p).contains(kept@[j]));
                self.keysounds@.filter_lemma(p);
            }
        }
        self.keysounds = kept;
    }

    /// Replaces keysound `old_id` by `new_id`: removes every declaration of
    /// `old_id`, then rewrites the slots of each note line of the tail whose
    /// channel is eligible. The declarations go even where every note line
    /// refuses, so slots on protected channels may keep an undeclared ID.
    pub fn rewrite(&mut self, old_id: u64, new_id: u64)
        requires
            old(self).wf(),
            new_id < ID_LIMIT,
        ensures
            final(self).keysounds@ == old(self).keysounds@.filter(
                |k: Keysound| k.keysound_id != old_id,
            ),
            final(self).head == old(self).head,
            final(self).tail@.len() == old(self).tail@.len(),
            forall|i: int|
                0 <= i < old(self).tail@.len() ==> is_rewrite_of(
                    #[trigger] final(self).tail@[i],
                    old(self).tail@[i],
                    old_id,
                    new_id,
                ),
            final(self).wf(),
    {
        self.remove_keysound(old_id);
        let ghost before = self.tail@;
        let mut i: usize = 0;
        while i < self.tail.len()
            invariant
                self.wf(),
                new_id < ID_LIMIT,
                self.keysounds@ == old(self).keysounds@.filter(
                    |k: Keysound| k.keysound_id != old_id,
                ),
                self.head == old(self).head,
                before == old(self).tail@,
                self.tail@.len() == before.len(),
                0 <= i <= before.len(),
                forall|j: int|
                    0 <= j < i ==> is_rewrite_of(#[trigger] self.tail@[j], before[j], old_id, new_id),
                forall|j: int| i <= j < before.len() ==> #[trigger] self.tail@[j] == before[j],
            decreases before.len() - i,
        {
            let line = &mut self.tail[i];
            match line {
                Line::Note(note) => {
                    let _ = note.replace_keysounds(old_id, new_id);
                },
                Line::Generic(_) => {},
            }
            i = i + 1;
        }
    }
}

/// A line that reads back as itself: it does not end in white space, and a
/// note line or declaration in it is written with upper-case tokens, a
/// declaration with a space after its ID.
pub open spec fn is_canonical_line(s: Seq<char>) -> bool {
    &&& s.len() == 0 || !is_white_space(s.last())
    &&& is_note_text(s) ==> is_canonical_note_text(s)
    &&& is_declaration_line(s) ==> s.len() >= 7 && s[6] == ' ' && !('a' <= s[4] && s[4] <= 'z')
        && !('a' <= s[5] && s[5] <= 'z')
}

proof fn lemma_line_round_trip(l: Line, s: Seq<char>)
    requires
        is_classified(l, s),
        is_canonical_line(s),
    ensures
        line_text(l) == s,
{
    if is_note_text(s) {
        lemma_note_round_trip(s);
    }
}

proof fn lemma_declaration_round_trip(k: Keysound, s: Seq<char>)
    requires
        is_declaration_line(s),
        is_canonical_line(s),
        declaration_spec(s) == Ok::<_, DeclarationError>(keysound_model(k)),
    ensures
        declaration_text(k.keysound_id, k.keysound_file@) == s,
{
    let t = s.subrange(4, 6);
    assert(all_digits36(t));
    assert(t[0] == s[4] && t[1] == s[5]);
    lemma_token_round_trip(t);
    assert(k.keysound_id == numeral_value(t));
    assert(s =~= seq!['#', 'W', 'A', 'V'] + t + seq![' '] + s.subrange(7, s.len() as int));
}

/// Parsing a chart whose lines are all canonical and writing it back gives
/// the same lines.
pub proof fn lemma_chart_round_trip(f: BMSFile, lines: Seq<Seq<char>>)
    requires
        f.is_parse_of(lines),
        forall|i: int| 0 <= i < lines.len() ==> is_canonical_line(#[trigger] lines[i]),
    ensures
        chart_text(f) == lines,
{
    let a = f.head@.len() as int;
    let b = a + f.keysounds@.len();
    let t = chart_text(f);
    assert forall|i: int| 0 <= i < lines.len() implies #[trigger] t[i] == lines[i] by {
        assert(is_canonical_line(lines[i]));
        if i < a {
            lemma_line_round_trip(f.head@[i], lines[i]);
        } else if i < b {
            assert(is_declaration_line(lines[i]));
            lemma_declaration_round_trip(f.keysounds@[i - a], lines[i]);
        } else {
            lemma_line_round_trip(f.tail@[i - b], lines[i]);
        }
    }
    assert(t =~= lines);
}

} // verus!
