use vstd::prelude::*;

verus! {

/// What is taken for granted of `String::push` of the standard library:
/// it appends `ch` to the end of the text and leaves the rest as it was.
pub assume_specification[ String::push ](text: &mut String, ch: char)
    ensures
        final(text)@ == old(text)@.push(ch),
;

/// The characters that separate words: those with the Unicode property
/// `White_Space`.
pub open spec fn is_space(c: char) -> bool {
    let code = c as u32;
    ||| 0x09 <= code <= 0x0D
    ||| code == 0x20
    ||| code == 0x85
    ||| code == 0xA0
    ||| code == 0x1680
    ||| 0x2000 <= code <= 0x200A
    ||| code == 0x2028
    ||| code == 0x2029
    ||| code == 0x202F
    ||| code == 0x205F
    ||| code == 0x3000
}

/// Whether `c` separates words.
pub fn is_whitespace(c: char) -> (space: bool)
    ensures
        space == is_space(c),
{
    let code = c as u32;
    (0x09 <= code && code <= 0x0D) || code == 0x20 || code == 0x85 || code == 0xA0 || code
        == 0x1680 || (0x2000 <= code && code <= 0x200A) || code == 0x2028 || code == 0x2029
        || code == 0x202F || code == 0x205F || code == 0x3000
}

/// What a scan of a text has found: the pieces that are complete, and the
/// piece that is still open.
pub struct Scan {
    pub done: Seq<Seq<char>>,
    pub open: Seq<char>,
}

impl Scan {
    /// The pieces, the open one included where it is not empty.
    pub open spec fn finished(self) -> Seq<Seq<char>> {
        if self.open.len() > 0 {
            self.done.push(self.open)
        } else {
            self.done
        }
    }
}

/// The scan of `text` for words. A separator closes the open word, if
/// there is one; any other character extends it.
pub open spec fn scan_words(text: Seq<char>) -> Scan
    decreases text.len(),
{
    if text.len() == 0 {
        Scan { done: Seq::empty(), open: Seq::empty() }
    } else {
        let before = scan_words(text.drop_last());
        if is_space(text.last()) {
            Scan { done: before.finished(), open: Seq::empty() }
        } else {
            Scan { done: before.done, open: before.open.push(text.last()) }
        }
    }
}

/// The words of `text`: its longest runs of characters that are no
/// separators, in their order.
pub open spec fn words(text: Seq<char>) -> Seq<Seq<char>> {
    scan_words(text).finished()
}

/// The scan of `text` for lines. A line feed closes the open line, be it
/// empty; any other character extends it.
pub open spec fn scan_lines(text: Seq<char>) -> Scan
    decreases text.len(),
{
    if text.len() == 0 {
        Scan { done: Seq::empty(), open: Seq::empty() }
    } else {
        let before = scan_lines(text.drop_last());
        if text.last() == '\n' {
            Scan { done: before.done.push(before.open), open: Seq::empty() }
        } else {
            Scan { done: before.done, open: before.open.push(text.last()) }
        }
    }
}

/// The lines of `text`: what stands between its line feeds. What follows
/// the last line feed is a line only where it is not empty.
pub open spec fn lines(text: Seq<char>) -> Seq<Seq<char>> {
    scan_lines(text).finished()
}

/// The texts of a list of strings, in its order.
pub open spec fn texts_of(strings: Seq<String>) -> Seq<Seq<char>> {
    Seq::new(strings.len(), |i: int| strings[i]@)
}

/// Splits `text` into its words.
pub fn split_words(text: &str) -> (found: Vec<String>)
    ensures
        texts_of(found@) == words(text@),
{
    let mut done: Vec<String> = Vec::new();
    let mut open = String::new();
    let ghost all = text@;
    for c in it: text.chars()
        invariant
            it.seq() == all,
            texts_of(done@) == scan_words(all.take(it.index())).done,
            open@ == scan_words(all.take(it.index())).open,
    {
        let ghost index = it.index();
        let ghost before = scan_words(all.take(index));
        proof {
            assert(all.take(index + 1).drop_last() =~= all.take(index));
            assert(all.take(index + 1).last() == c);
        }
        if is_whitespace(c) {
            if !open.as_str().is_empty() {
                done.push(open);
                open = String::new();
            }
            assert(texts_of(done@) =~= before.finished());
        } else {
            open.push(c);
        }
    }
    proof {
        assert(all.take(all.len() as int) =~= all);
    }
    let ghost before = scan_words(all);
    if !open.as_str().is_empty() {
        done.push(open);
    }
    assert(texts_of(done@) =~= before.finished());
    done
}

/// Splits `text` into its lines.
pub fn split_lines(text: &str) -> (found: Vec<String>)
    ensures
        texts_of(found@) == lines(text@),
{
    let mut done: Vec<String> = Vec::new();
    let mut open = String::new();
    let ghost all = text@;
    for c in it: text.chars()
        invariant
            it.seq() == all,
            texts_of(done@) == scan_lines(all.take(it.index())).done,
            open@ == scan_lines(all.take(it.index())).open,
    {
        let ghost index = it.index();
        let ghost before = scan_lines(all.take(index));
        proof {
            assert(all.take(index + 1).drop_last() =~= all.take(index));
            assert(all.take(index + 1).last() == c);
        }
        if c == '\n' {
            done.push(open);
            open = String::new();
            assert(texts_of(done@) =~= before.done.push(before.open));
        } else {
            open.push(c);
        }
    }
    proof {
        assert(all.take(all.len() as int) =~= all);
    }
    let ghost before = scan_lines(all);
    if !open.as_str().is_empty() {
        done.push(open);
    }
    assert(texts_of(done@) =~= before.finished());
    done
}

/// `piece` holds no separator.
pub open spec fn is_unbroken(piece: Seq<char>) -> bool {
    forall|i: int| 0 <= i < piece.len() ==> !is_space(#[trigger] piece[i])
}

/// `word` is not empty and holds no separator.
pub open spec fn is_word(word: Seq<char>) -> bool {
    word.len() > 0 && is_unbroken(word)
}

/// Every word of a text is not empty and holds no separator.
pub proof fn law_words_are_words(text: Seq<char>)
    ensures
        forall|i: int| 0 <= i < words(text).len() ==> is_word(#[trigger] words(text)[i]),
{
    lemma_scan_words(text);
}

proof fn lemma_scan_words(text: Seq<char>)
    ensures
        forall|i: int|
            0 <= i < scan_words(text).done.len() ==> is_word(#[trigger] scan_words(text).done[i]),
        is_unbroken(scan_words(text).open),
    decreases text.len(),
{
    if text.len() > 0 {
        lemma_scan_words(text.drop_last());
        let before = scan_words(text.drop_last());
        let after = scan_words(text);
        if is_space(text.last()) {
            assert forall|i: int| 0 <= i < after.done.len() implies is_word(
                #[trigger] after.done[i],
            ) by {
                if i < before.done.len() {
                    assert(after.done[i] == before.done[i]);
                }
            }
        } else {
            assert forall|i: int| 0 <= i < after.open.len() implies !is_space(
                #[trigger] after.open[i],
            ) by {
                if i < before.open.len() {
                    assert(after.open[i] == before.open[i]);
                }
            }
        }
    }
}

/// `line` holds no line feed.
pub open spec fn is_line(line: Seq<char>) -> bool {
    forall|i: int| 0 <= i < line.len() ==> #[trigger] line[i] != '\n'
}

/// No line of a text holds a line feed.
pub proof fn law_lines_are_lines(text: Seq<char>)
    ensures
        forall|i: int| 0 <= i < lines(text).len() ==> is_line(#[trigger] lines(text)[i]),
{
    lemma_scan_lines(text);
}

proof fn lemma_scan_lines(text: Seq<char>)
    ensures
        forall|i: int|
            0 <= i < scan_lines(text).done.len() ==> is_line(#[trigger] scan_lines(text).done[i]),
        is_line(scan_lines(text).open),
    decreases text.len(),
{
    if text.len() > 0 {
        lemma_scan_lines(text.drop_last());
        let before = scan_lines(text.drop_last());
        let after = scan_lines(text);
        if text.last() == '\n' {
            assert forall|i: int| 0 <= i < after.done.len() implies is_line(
                #[trigger] after.done[i],
            ) by {
                if i < before.done.len() {
                    assert(after.done[i] == before.done[i]);
                }
            }
        } else {
            assert forall|i: int| 0 <= i < after.open.len() implies #[trigger] after.open[i]
                != '\n' by {
                if i < before.open.len() {
                    assert(after.open[i] == before.open[i]);
                }
            }
        }
    }
}

/// The words `words` in a row, with one space between two of them.
pub open spec fn join_words(words: Seq<Seq<char>>) -> Seq<char>
    decreases words.len(),
{
    if words.len() == 0 {
        Seq::empty()
    } else if words.len() == 1 {
        words[0]
    } else {
        join_words(words.drop_last()) + seq![' '] + words.last()
    }
}

/// The lines `lines` in a row, each closed by a line feed.
pub open spec fn join_lines(lines: Seq<Seq<char>>) -> Seq<char>
    decreases lines.len(),
{
    if lines.len() == 0 {
        Seq::empty()
    } else {
        join_lines(lines.drop_last()) + lines.last() + seq!['\n']
    }
}

/// A piece without separator that follows a text extends the open word
/// of the text.
proof fn lemma_scan_words_extended(text: Seq<char>, piece: Seq<char>)
    requires
        is_unbroken(piece),
    ensures
        scan_words(text + piece) == (Scan {
            done: scan_words(text).done,
            open: scan_words(text).open + piece,
        }),
    decreases piece.len(),
{
    if piece.len() == 0 {
        assert(text + piece =~= text);
        assert(scan_words(text).open + piece =~= scan_words(text).open);
    } else {
        let front = piece.drop_last();
        assert(is_unbroken(front)) by {
            assert forall|i: int| 0 <= i < front.len() implies !is_space(#[trigger] front[i]) by {
                assert(front[i] == piece[i]);
            }
        }
        lemma_scan_words_extended(text, front);
        assert((text + piece).drop_last() =~= text + front);
        assert((text + piece).last() == piece.last());
        assert(!is_space(piece[piece.len() - 1]));
        assert((scan_words(text).open + front).push(piece.last()) =~= scan_words(text).open
            + piece);
    }
}

/// Words that are joined by spaces are found again, each as it was.
pub proof fn law_joined_words_are_split(words: Seq<Seq<char>>)
    requires
        forall|i: int| 0 <= i < words.len() ==> is_word(#[trigger] words[i]),
    ensures
        self::words(join_words(words)) == words,
{
    lemma_scan_joined_words(words);
}

proof fn lemma_scan_joined_words(words: Seq<Seq<char>>)
    requires
        forall|i: int| 0 <= i < words.len() ==> is_word(#[trigger] words[i]),
    ensures
        scan_words(join_words(words)).finished() == words,
        words.len() > 0 ==> scan_words(join_words(words)).open.len() > 0,
    decreases words.len(),
{
    if words.len() == 0 {
        assert(scan_words(join_words(words)).finished() =~= words);
    } else if words.len() == 1 {
        let word = words[0];
        assert(is_word(word));
        lemma_scan_words_extended(Seq::empty(), word);
        assert(Seq::<char>::empty() + word =~= word);
        assert(scan_words(word).finished() =~= words);
    } else {
        let front = words.drop_last();
        let last = words.last();
        assert(is_word(words[words.len() - 1]));
        assert forall|i: int| 0 <= i < front.len() implies is_word(#[trigger] front[i]) by {
            assert(front[i] == words[i]);
        }
        lemma_scan_joined_words(front);
        let spaced = join_words(front) + seq![' '];
        assert(spaced.drop_last() =~= join_words(front));
        assert(is_space(' '));
        assert(scan_words(spaced) == (Scan { done: front, open: Seq::empty() }));
        lemma_scan_words_extended(spaced, last);
        assert(Seq::<char>::empty() + last =~= last);
        assert(scan_words(spaced + last).finished() =~= words);
    }
}

/// A piece without line feed that follows a text extends the open line
/// of the text.
proof fn lemma_scan_lines_extended(text: Seq<char>, piece: Seq<char>)
    requires
        is_line(piece),
    ensures
        scan_lines(text + piece) == (Scan {
            done: scan_lines(text).done,
            open: scan_lines(text).open + piece,
        }),
    decreases piece.len(),
{
    if piece.len() == 0 {
        assert(text + piece =~= text);
        assert(scan_lines(text).open + piece =~= scan_lines(text).open);
    } else {
        let front = piece.drop_last();
        assert(is_line(front)) by {
            assert forall|i: int| 0 <= i < front.len() implies #[trigger] front[i] != '\n' by {
                assert(front[i] == piece[i]);
            }
        }
        lemma_scan_lines_extended(text, front);
        assert((text + piece).drop_last() =~= text + front);
        assert((text + piece).last() == piece.last());
        assert(piece[piece.len() - 1] != '\n');
        assert((scan_lines(text).open + front).push(piece.last()) =~= scan_lines(text).open
            + piece);
    }
}

/// Lines that are joined in two runs are joined in one.
pub proof fn law_join_lines_distributes(first: Seq<Seq<char>>, second: Seq<Seq<char>>)
    ensures
        join_lines(first + second) == join_lines(first) + join_lines(second),
    decreases second.len(),
{
    if second.len() == 0 {
        assert(first + second =~= first);
        assert(join_lines(first) + join_lines(second) =~= join_lines(first));
    } else {
        law_join_lines_distributes(first, second.drop_last());
        assert((first + second).drop_last() =~= first + second.drop_last());
        assert((first + second).last() == second.last());
        assert(join_lines(first + second) =~= join_lines(first) + join_lines(second));
    }
}

/// Lines that are closed by line feeds are found again, each as it was.
pub proof fn law_joined_lines_are_split(lines: Seq<Seq<char>>)
    requires
        forall|i: int| 0 <= i < lines.len() ==> is_line(#[trigger] lines[i]),
    ensures
        self::lines(join_lines(lines)) == lines,
{
    lemma_scan_joined_lines(lines);
}

proof fn lemma_scan_joined_lines(lines: Seq<Seq<char>>)
    requires
        forall|i: int| 0 <= i < lines.len() ==> is_line(#[trigger] lines[i]),
    ensures
        scan_lines(join_lines(lines)) == (Scan { done: lines, open: Seq::empty() }),
    decreases lines.len(),
{
    if lines.len() == 0 {
        assert(scan_lines(join_lines(lines)).done =~= lines);
    } else {
        let front = lines.drop_last();
        let last = lines.last();
        assert(is_line(lines[lines.len() - 1]));
        assert forall|i: int| 0 <= i < front.len() implies is_line(#[trigger] front[i]) by {
            assert(front[i] == lines[i]);
        }
        lemma_scan_joined_lines(front);
        lemma_scan_lines_extended(join_lines(front), last);
        let unclosed = join_lines(front) + last;
        assert(Seq::<char>::empty() + last =~= last);
        assert(join_lines(lines).drop_last() =~= unclosed);
        assert(join_lines(lines).last() == '\n');
        assert(scan_lines(join_lines(lines)).done =~= lines);
    }
}

} // verus!
