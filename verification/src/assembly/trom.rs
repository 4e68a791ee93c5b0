//! The textual program file format: one 9-trit word per line, written
//! as the letters N, O and P, most significant first.  Lines whose
//! first character after whitespace is `;` are comments, blank lines
//! are skipped, and anything after the first nine trit letters of a
//! line is ignored.  Reading the text from disk belongs to the caller;
//! this module turns the text into words and back.

use vstd::prelude::*;

use crate::assembly::text::{dec_digits, push_dec, push_dec3};
use crate::ternary::trit::Trit;
use crate::ternary::word::{
    char_trit,
    is_space_char,
    lemma_trim_back_take,
    lemma_trim_front_skip,
    lemma_tryte9_width,
    text_trits,
    trimmed,
    word_text,
    Tryte9,
};

verus! {

broadcast use lemma_tryte9_width;

/// A program image together with the source line of each word.
#[derive(Debug, Clone)]
pub struct TromFile {
    /// The program words.
    pub instructions: Vec<Tryte9>,
    /// The source text each word came from.
    pub source_lines: Vec<String>,
}

/// Errors of the program file format.
#[derive(Debug, Clone)]
pub enum TromError {
    /// The caller could not read or write the file; carries the
    /// host's description.
    IoError(String),
    /// A line holds trit letters but fewer than nine of them.
    ParseError { line: usize, message: String },
}

impl TromFile {
    /// An empty program.
    pub fn new() -> (r: Self)
        ensures
            r.instructions@.len() == 0,
            r.source_lines@.len() == 0,
    {
        TromFile { instructions: Vec::new(), source_lines: Vec::new() }
    }

    /// Append one word with the source text it came from.
    pub fn push(&mut self, instr: Tryte9, source: &str)
        ensures
            final(self).instructions@ == old(self).instructions@.push(instr),
            final(self).source_lines@.len() == old(self).source_lines@.len() + 1,
            final(self).source_lines@.last()@ == source@,
            forall|k: int|
                0 <= k < old(self).source_lines@.len() ==> final(self).source_lines@[k] == old(
                    self,
                ).source_lines@[k],
    {
        self.instructions.push(instr);
        self.source_lines.push(source.to_owned());
    }

    /// The number of words.
    pub fn len(&self) -> (r: usize)
        ensures
            r == self.instructions@.len(),
    {
        self.instructions.len()
    }

    /// True when the program holds no words.
    pub fn is_empty(&self) -> (r: bool)
        ensures
            r == (self.instructions@.len() == 0),
    {
        self.instructions.len() == 0
    }
}

impl Default for TromFile {
    /// The default program is empty.
    fn default() -> (r: Self)
        ensures
            r.instructions@.len() == 0,
            r.source_lines@.len() == 0,
    {
        TromFile::new()
    }
}

/// The characters that spell trits in a program file.
pub open spec fn trit_letter(c: char) -> bool {
    c == 'N' || c == 'O' || c == 'P' || c == 'n' || c == 'o' || c == 'p'
}

/// The trit letters of a line, in order.
pub open spec fn line_letters(l: Seq<char>) -> Seq<char> {
    l.filter(|c: char| trit_letter(c))
}

/// True for the lines the format skips: blank ones and comments.
pub open spec fn line_skipped(l: Seq<char>) -> bool {
    trimmed(l).len() == 0 || trimmed(l)[0] == ';'
}

/// The word a full line spells: its first nine trit letters read
/// most significant first.
pub open spec fn line_word(l: Seq<char>) -> Seq<Trit> {
    text_trits(line_letters(l).take(9))
}

/// The position of the first line break, or -1.
pub open spec fn first_nl(s: Seq<char>) -> int
    decreases s.len(),
{
    if s.len() == 0 {
        -1
    } else if s[0] == '\n' {
        0
    } else {
        let r = first_nl(s.drop_first());
        if r == -1 {
            -1
        } else {
            r + 1
        }
    }
}

/// The first break, when there is one, lies inside the text.
proof fn lemma_first_nl_bounds(s: Seq<char>)
    ensures
        first_nl(s) == -1 || (0 <= first_nl(s) < s.len()),
    decreases s.len(),
{
    if s.len() > 0 && s[0] != '\n' {
        lemma_first_nl_bounds(s.drop_first());
    }
}

/// The text split at its line breaks.
pub open spec fn split_lines(s: Seq<char>) -> Seq<Seq<char>>
    decreases s.len(),
    via split_lines_decreases
{
    let k = first_nl(s);
    if k == -1 {
        seq![s]
    } else {
        seq![s.take(k)] + split_lines(s.skip(k + 1))
    }
}

#[via_fn]
proof fn split_lines_decreases(s: Seq<char>) {
    lemma_first_nl_bounds(s);
}

/// All lines hold either nothing, a comment, or at least nine trit
/// letters.
pub open spec fn lines_ok(lines: Seq<Seq<char>>) -> bool {
    forall|k: int|
        0 <= k < lines.len() ==> line_skipped(#[trigger] lines[k]) || line_letters(
            lines[k],
        ).len() >= 9
}

/// The words of a well-formed program text, line by line.
pub open spec fn lines_words(lines: Seq<Seq<char>>) -> Seq<Seq<Trit>>
    decreases lines.len(),
{
    if lines.len() == 0 {
        Seq::empty()
    } else {
        (if line_skipped(lines[0]) {
            Seq::empty()
        } else {
            seq![line_word(lines[0])]
        }) + lines_words(lines.drop_first())
    }
}

/// The index of the first bad line: one that is not skipped and has
/// fewer than nine trit letters.
pub open spec fn first_bad_line(lines: Seq<Seq<char>>) -> int
    decreases lines.len(),
{
    if lines.len() == 0 {
        0
    } else if !line_skipped(lines[0]) && line_letters(lines[0]).len() < 9 {
        0
    } else {
        1 + first_bad_line(lines.drop_first())
    }
}

/// The message a short line is refused with.
pub open spec fn short_line_message(found: int) -> Seq<char> {
    seq!['e', 'x', 'p', 'e', 'c', 't', 'e', 'd', ' ', '9', ' ', 't', 'r', 'i', 't', 's', ',', ' ', 'f', 'o', 'u', 'n', 'd', ' ']
        + dec_digits(found)
}

/// What one line of a program text contributes.
enum LineOut {
    /// A blank or comment line.
    Skipped,
    /// A word and the trimmed source it came from.
    Word(Tryte9, String),
    /// Trit letters were found, but fewer than nine.
    Short(usize),
}

/// Read one line of the text, between the given character positions.
fn parse_line(source: &str, ls: usize, le: usize) -> (r: LineOut)
    requires
        ls <= le <= source@.len(),
    ensures
        ({
            let l = source@.subrange(ls as int, le as int);
            match r {
                LineOut::Skipped => line_skipped(l),
                LineOut::Word(w, src) => !line_skipped(l) && line_letters(l).len() >= 9 && w@
                    == line_word(l) && src@ == trimmed(l),
                LineOut::Short(k) => !line_skipped(l) && line_letters(l).len() == k && k < 9,
            }
        }),
{
    let ghost l = source@.subrange(ls as int, le as int);
    // Trim the line to decide whether it is blank or a comment.
    let mut ts: usize = ls;
    while ts < le && is_space(source.get_char(ts))
        invariant
            ls <= ts <= le <= source@.len(),
            forall|j: int| ls <= j < ts ==> is_space_char(source@[j]),
        decreases le - ts,
    {
        ts = ts + 1;
    }
    let mut te: usize = le;
    while te > ts && is_space(source.get_char(te - 1))
        invariant
            ts <= te <= le,
            ls <= ts <= le <= source@.len(),
            ts < le ==> !is_space_char(source@[ts as int]),
            forall|j: int| ls <= j < ts ==> is_space_char(source@[j]),
            forall|j: int| te <= j < le ==> is_space_char(source@[j]),
        decreases te,
    {
        te = te - 1;
    }
    proof {
        lemma_trim_front_skip(l, ts - ls);
        lemma_trim_back_take(l.skip(ts - ls), te - ts);
        assert(trimmed(l) =~= source@.subrange(ts as int, te as int));
    }
    if ts == te {
        return LineOut::Skipped;
    }
    if source.get_char(ts) == ';' {
        proof {
            assert(trimmed(l)[0] == source@[ts as int]);
        }
        return LineOut::Skipped;
    }
    // Collect the line's trit letters.
    let mut digits: Vec<Trit> = Vec::new();
    let mut i: usize = ls;
    while i < le
        invariant
            ls <= i <= le <= source@.len(),
            l == source@.subrange(ls as int, le as int),
            digits@.len() == line_letters(l.take(i - ls)).len(),
            forall|m: int|
                0 <= m < digits@.len() ==> Some(#[trigger] digits@[m]) == char_trit(
                    line_letters(l.take(i - ls))[m],
                ),
        decreases le - i,
    {
        let c = source.get_char(i);
        let ghost prefix = l.take(i - ls);
        proof {
            reveal(Seq::filter);
            assert(l.take(i + 1 - ls).drop_last() =~= prefix);
            assert(l.take(i + 1 - ls).last() == c);
        }
        if c == 'N' || c == 'n' {
            digits.push(Trit::N);
        } else if c == 'O' || c == 'o' {
            digits.push(Trit::O);
        } else if c == 'P' || c == 'p' {
            digits.push(Trit::P);
        }
        proof {
            if trit_letter(c) {
                assert(line_letters(l.take(i + 1 - ls)) =~= line_letters(prefix) + seq![c]);
            } else {
                assert(line_letters(l.take(i + 1 - ls)) =~= line_letters(prefix));
            }
        }
        i = i + 1;
    }
    proof {
        assert(l.take(le - ls) =~= l);
    }
    if digits.len() < 9 {
        return LineOut::Short(digits.len());
    }
    // The first nine letters, most significant first.
    let mut trits: [Trit; 9] = vstd::array::array_fill_for_copy_types::<Trit, 9>(Trit::O);
    let mut j: usize = 0;
    while j < 9
        invariant
            j <= 9,
            trits@.len() == 9,
            digits@.len() >= 9,
            digits@.len() == line_letters(l).len(),
            forall|m: int|
                0 <= m < digits@.len() ==> Some(#[trigger] digits@[m]) == char_trit(
                    line_letters(l)[m],
                ),
            forall|m: int| 0 <= m < j ==> Some(#[trigger] trits@[m]) == char_trit(
                line_letters(l)[8 - m],
            ),
        decreases 9 - j,
    {
        trits[j] = digits[8 - j];
        j = j + 1;
    }
    let word = Tryte9::from_trits(trits);
    proof {
        assert forall|m: int| 0 <= m < 9 implies word@[m] == line_word(l)[m] by {
            assert(line_word(l)[m] == (match char_trit(line_letters(l).take(9)[8 - m]) {
                Some(t) => t,
                None => Trit::O,
            }));
            assert(line_letters(l).take(9)[8 - m] == line_letters(l)[8 - m]);
        }
        assert(word@ =~= line_word(l));
    }
    let src = source.substring_char(ts, te);
    LineOut::Word(word, src.to_owned())
}

/// Whether a character is whitespace this format skips.
fn is_space(c: char) -> (r: bool)
    ensures
        r == is_space_char(c),
{
    crate::ternary::word::is_space(c)
}

/// Read a whole program text: one word per line, comments and blank
/// lines skipped.  A line with trit letters but fewer than nine of
/// them is refused, with its one-based line number.
pub fn parse_trom(source: &str) -> (r: Result<TromFile, TromError>)
    requires
        source@.len() < usize::MAX,
    ensures
        lines_ok(split_lines(source@)) ==> (r matches Ok(t)
            && t.instructions@.map_values(|w: Tryte9| w@) == lines_words(split_lines(source@))
            && t.source_lines@.len() == t.instructions@.len()),
        !lines_ok(split_lines(source@)) ==> (r matches Err(TromError::ParseError { line, message })
            && line == first_bad_line(split_lines(source@)) + 1 && message@ == short_line_message(
            line_letters(split_lines(source@)[first_bad_line(split_lines(source@))]).len() as int,
        )),
{
    let n = source.unicode_len();
    let ghost view = source@;
    let ghost all_lines = split_lines(view);
    let mut trom = TromFile::new();
    let mut pos: usize = 0;
    let mut lineno: usize = 0;
    proof {
        assert(view.skip(0) =~= view);
        assert(all_lines.skip(0) =~= all_lines);
        assert(all_lines.len() >= 1);
        assert(lines_words(all_lines.take(0)) =~= Seq::<Seq<Trit>>::empty());
        assert(trom.instructions@.map_values(|w: Tryte9| w@) =~= Seq::<Seq<Trit>>::empty());
    }
    while pos <= n
        invariant
            pos <= n + 1,
            lineno <= pos,
            n < usize::MAX,
            n == view.len(),
            view == source@,
            lineno <= all_lines.len(),
            all_lines == split_lines(view),
            pos <= n ==> all_lines.skip(lineno as int) == split_lines(view.skip(pos as int)),
            pos <= n ==> lineno < all_lines.len(),
            pos == n + 1 ==> lineno == all_lines.len(),
            forall|k: int|
                0 <= k < lineno ==> line_skipped(#[trigger] all_lines[k]) || line_letters(
                    all_lines[k],
                ).len() >= 9,
            trom.instructions@.map_values(|w: Tryte9| w@) == lines_words(
                all_lines.take(lineno as int),
            ),
            trom.source_lines@.len() == trom.instructions@.len(),
        decreases n + 1 - pos,
    {
        // The current line runs to the next break or the end.
        let mut le: usize = pos;
        while le < n && !(source.get_char(le) == '\n')
            invariant
                pos <= le <= n,
                n == view.len(),
                view == source@,
                forall|j: int| pos <= j < le ==> view[j] != '\n',
            decreases n - le,
        {
            le = le + 1;
        }
        let ghost rest = view.skip(pos as int);
        proof {
            if le < n {
                lemma_first_nl(rest, le - pos);
                assert(split_lines(rest) == seq![rest.take(le - pos)] + split_lines(
                    rest.skip(le - pos + 1),
                ));
            } else {
                lemma_first_nl_none(rest);
                assert(split_lines(rest) == seq![rest]);
            }
            assert(rest.take(le - pos) =~= view.subrange(pos as int, le as int));
            assert(rest =~= view.subrange(pos as int, n as int));
        }
        let out = parse_line(source, pos, le);
        let ghost l = view.subrange(pos as int, le as int);
        proof {
            assert(all_lines[lineno as int] == all_lines.skip(lineno as int)[0]);
            if le < n {
                assert(all_lines.skip(lineno as int)[0] == rest.take(le - pos));
            } else {
                assert(all_lines.skip(lineno as int)[0] == rest);
            }
            assert(all_lines[lineno as int] == l);
        }
        match out {
            LineOut::Skipped => (),
            LineOut::Word(w, src) => {
                trom.push(w, src.as_str());
            },
            LineOut::Short(found) => {
                proof {
                    lemma_first_bad_here(all_lines, lineno as int);
                }
                let mut message = String::new();
                message.append("expected 9 trits, found ");
                push_dec(&mut message, found as u64);
                proof {
                    reveal_strlit("expected 9 trits, found ");
                    assert(message@ =~= short_line_message(found as int));
                }
                return Err(TromError::ParseError { line: lineno + 1, message });
            },
        }
        proof {
            lemma_lines_words_snoc(all_lines, lineno as int);
            assert(all_lines.take(lineno as int + 1).drop_last() =~= all_lines.take(
                lineno as int,
            ));
            assert(all_lines.skip(lineno as int + 1) =~= all_lines.skip(
                lineno as int,
            ).drop_first());
            if le < n {
                assert(view.skip(pos as int).skip(le - pos + 1) =~= view.skip(le + 1));
                assert(split_lines(rest).drop_first() =~= split_lines(rest.skip(le - pos + 1)));
                assert(split_lines(view.skip(le + 1)).len() >= 1);
            } else {
                assert(split_lines(rest) =~= seq![rest]);
                assert(all_lines.skip(lineno as int).len() == 1);
                assert(lineno + 1 == all_lines.len());
            }
        }
        lineno = lineno + 1;
        pos = le + 1;
    }
    proof {
        assert(all_lines.take(all_lines.len() as int) =~= all_lines);
    }
    Ok(trom)
}

/// The first break of a text whose prefix holds none.
pub(crate) proof fn lemma_first_nl(s: Seq<char>, k: int)
    requires
        0 <= k < s.len(),
        s[k] == '\n',
        forall|j: int| 0 <= j < k ==> s[j] != '\n',
    ensures
        first_nl(s) == k,
    decreases k,
{
    if k > 0 {
        lemma_first_nl(s.drop_first(), k - 1);
    }
}

/// A text without breaks is one single line.
pub(crate) proof fn lemma_first_nl_none(s: Seq<char>)
    requires
        forall|j: int| 0 <= j < s.len() ==> s[j] != '\n',
    ensures
        first_nl(s) == -1,
    decreases s.len(),
{
    if s.len() > 0 {
        lemma_first_nl_none(s.drop_first());
    }
}

/// Appending one processed line to the words gathered so far.
proof fn lemma_lines_words_snoc(lines: Seq<Seq<char>>, k: int)
    requires
        0 <= k < lines.len(),
    ensures
        lines_words(lines.take(k + 1)) == lines_words(lines.take(k)) + (if line_skipped(lines[k]) {
            Seq::<Seq<Trit>>::empty()
        } else {
            seq![line_word(lines[k])]
        }),
    decreases k,
{
    if k == 0 {
        assert(lines.take(1)[0] == lines[0]);
        assert(lines.take(1).drop_first() =~= Seq::<Seq<char>>::empty());
        assert(lines.take(0) =~= Seq::<Seq<char>>::empty());
        assert(lines_words(lines.take(1)) =~= lines_words(lines.take(0)) + (if line_skipped(
            lines[0],
        ) {
            Seq::<Seq<Trit>>::empty()
        } else {
            seq![line_word(lines[0])]
        }));
    } else {
        lemma_lines_words_snoc(lines.drop_first(), k - 1);
        assert(lines.take(k + 1).drop_first() =~= lines.drop_first().take(k));
        assert(lines.take(k).drop_first() =~= lines.drop_first().take(k - 1));
        assert(lines.take(k + 1)[0] == lines[0]);
        assert(lines.take(k)[0] == lines[0]);
        assert(lines.drop_first()[k - 1] == lines[k]);
        assert(lines_words(lines.take(k + 1)) =~= lines_words(lines.take(k)) + (if line_skipped(
            lines[k],
        ) {
            Seq::<Seq<Trit>>::empty()
        } else {
            seq![line_word(lines[k])]
        }));
    }
}

/// A bad line after good ones is the first bad line.
proof fn lemma_first_bad_here(lines: Seq<Seq<char>>, k: int)
    requires
        0 <= k < lines.len(),
        !line_skipped(lines[k]),
        line_letters(lines[k]).len() < 9,
        forall|j: int|
            0 <= j < k ==> line_skipped(#[trigger] lines[j]) || line_letters(lines[j]).len() >= 9,
    ensures
        first_bad_line(lines) == k,
        !lines_ok(lines),
    decreases k,
{
    if k > 0 {
        lemma_first_bad_here(lines.drop_first(), k - 1);
    }
}

/// One rendered program line: the word's trits, then its index as a
/// comment.
pub open spec fn trom_line(idx: int, w: Tryte9) -> Seq<char> {
    seq!['0', 't'] + word_text(w@) + seq![' ', ';', ' '] + crate::assembly::text::dec_text3(idx)
        + seq!['\n']
}

/// The rendered lines of a program from one index on.
pub open spec fn trom_lines_text(ws: Seq<Tryte9>, idx: int) -> Seq<char>
    decreases ws.len(),
{
    if ws.len() == 0 {
        Seq::empty()
    } else {
        trom_line(idx, ws[0]) + trom_lines_text(ws.drop_first(), idx + 1)
    }
}

/// The header of a rendered program file.
pub open spec fn trom_header(count: int) -> Seq<char> {
    seq![';', ' ', 'S', 'e', 't', 'u', 'n', ' ', 'T', 'R', 'O', 'M', ' ', 'f', 'i', 'l', 'e', '\n', ';', ' ']
        + dec_digits(count) + seq![' ', 'i', 'n', 's', 't', 'r', 'u', 'c', 't', 'i', 'o', 'n', 's', '\n', '\n']
}

/// Peeling the last line off a rendered program.
proof fn lemma_trom_lines_snoc(ws: Seq<Tryte9>, idx: int)
    requires
        ws.len() > 0,
    ensures
        trom_lines_text(ws, idx) == trom_lines_text(ws.drop_last(), idx) + trom_line(
            idx + ws.len() - 1,
            ws.last(),
        ),
    decreases ws.len(),
{
    if ws.len() == 1 {
        assert(ws.drop_last() =~= Seq::<Tryte9>::empty());
        assert(ws.drop_first() =~= Seq::<Tryte9>::empty());
        assert(trom_lines_text(ws.drop_first(), idx + 1) =~= Seq::<char>::empty());
        assert(trom_lines_text(ws, idx) =~= Seq::<char>::empty() + trom_line(idx, ws[0]));
        assert(trom_lines_text(ws.drop_last(), idx) =~= Seq::<char>::empty());
    } else {
        lemma_trom_lines_snoc(ws.drop_first(), idx + 1);
        assert(ws.drop_first().drop_last() =~= ws.drop_last().drop_first());
        assert(ws.drop_first().last() == ws.last());
        assert(ws.drop_last()[0] == ws[0]);
        assert(trom_lines_text(ws, idx) =~= trom_lines_text(ws.drop_last(), idx) + trom_line(
            idx + ws.len() - 1,
            ws.last(),
        ));
    }
}

/// Render a program back into file text: a short comment header, then
/// one word per line with its index.
pub fn render_trom(trom: &TromFile) -> (r: String)
    ensures
        r@ == trom_header(trom.instructions@.len() as int) + trom_lines_text(
            trom.instructions@,
            0,
        ),
{
    let mut out = String::new();
    out.append("; Setun TROM file\n");
    out.append("; ");
    push_dec(&mut out, trom.instructions.len() as u64);
    out.append(" instructions\n\n");
    proof {
        reveal_strlit("; Setun TROM file\n");
        reveal_strlit("; ");
        reveal_strlit(" instructions\n\n");
        assert(out@ =~= trom_header(trom.instructions@.len() as int));
        assert(trom.instructions@.take(0) =~= Seq::<Tryte9>::empty());
        assert(out@ =~= trom_header(trom.instructions@.len() as int) + trom_lines_text(
            trom.instructions@.take(0),
            0,
        ));
    }
    let mut i: usize = 0;
    while i < trom.instructions.len()
        invariant
            i <= trom.instructions@.len(),
            out@ == trom_header(trom.instructions@.len() as int) + trom_lines_text(
                trom.instructions@.take(i as int),
                0,
            ),
        decreases trom.instructions@.len() - i,
    {
        let w = trom.instructions[i];
        let word = w.to_text();
        let out2 = out.concat(word.as_str());
        out = out2;
        out.append(" ; ");
        push_dec3(&mut out, i as u64);
        out.append("\n");
        proof {
            reveal_strlit(" ; ");
            reveal_strlit("\n");
            lemma_trom_lines_snoc(trom.instructions@.take(i as int + 1), 0);
            assert(trom.instructions@.take(i as int + 1).drop_last() =~= trom.instructions@.take(
                i as int,
            ));
            assert(out@ =~= trom_header(trom.instructions@.len() as int) + trom_lines_text(
                trom.instructions@.take(i as int + 1),
                0,
            ));
        }
        i = i + 1;
    }
    proof {
        assert(trom.instructions@.take(trom.instructions@.len() as int) =~= trom.instructions@);
    }
    out
}

} // verus!
