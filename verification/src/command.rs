//! The command language: one command per line, its words parted by white space.

use vstd::prelude::*;

verus! {

/// Whether the three bytes encode a white-space character.
pub open spec fn is_wide_space(a: u8, b: u8, c: u8) -> bool {
    ||| a == 0xe1 && b == 0x9a && c == 0x80
    ||| a == 0xe2 && b == 0x80 && (0x80 <= c <= 0x8a || c == 0xa8 || c == 0xa9 || c == 0xaf)
    ||| a == 0xe2 && b == 0x81 && c == 0x9f
    ||| a == 0xe3 && b == 0x80 && c == 0x80
}

/// The length in bytes of the white-space character that starts at `i`, or 0
/// where none starts there.
///
/// White space is what Unicode marks as such, in its UTF-8 encoding: the
/// ASCII blank and the control characters from tab to carriage return, the
/// two-byte next-line and no-break space, and the three-byte spaces.
pub open spec fn space_len(s: Seq<u8>, i: int) -> int {
    if !(0 <= i < s.len()) {
        0
    } else if 0x09 <= s[i] <= 0x0d || s[i] == 0x20 {
        1
    } else if i + 1 < s.len() && s[i] == 0xc2 && (s[i + 1] == 0x85 || s[i + 1] == 0xa0) {
        2
    } else if i + 2 < s.len() && is_wide_space(s[i], s[i + 1], s[i + 2]) {
        3
    } else {
        0
    }
}

/// Where the word that starts at `i` ends: the first position from `i` on at
/// which white space starts, or the end of the line.
pub open spec fn word_end(s: Seq<u8>, i: int) -> int
    decreases s.len() - i,
{
    if i < 0 || i >= s.len() || space_len(s, i) > 0 {
        i
    } else {
        word_end(s, i + 1)
    }
}

/// The words of the line from position `i` on.
pub open spec fn words_from(s: Seq<u8>, i: int) -> Seq<Seq<u8>>
    decreases s.len() - i,
    via words_from_decreases
{
    if i < 0 || i >= s.len() {
        seq![]
    } else if space_len(s, i) > 0 {
        words_from(s, i + space_len(s, i))
    } else {
        seq![s.subrange(i, word_end(s, i))] + words_from(s, word_end(s, i))
    }
}

#[via_fn]
proof fn words_from_decreases(s: Seq<u8>, i: int) {
    if 0 <= i < s.len() && space_len(s, i) == 0 {
        lemma_word_end(s, i);
    }
}

/// A word ends inside the line, behind its start, and holds no white space.
pub proof fn lemma_word_end(s: Seq<u8>, i: int)
    requires
        0 <= i <= s.len(),
    ensures
        i <= word_end(s, i) <= s.len(),
        0 <= i < s.len() && space_len(s, i) == 0 ==> i < word_end(s, i),
        forall|j: int| i <= j < word_end(s, i) ==> space_len(s, j) == 0,
        word_end(s, i) < s.len() ==> space_len(s, word_end(s, i)) > 0,
    decreases s.len() - i,
{
    if i < s.len() && space_len(s, i) == 0 {
        lemma_word_end(s, i + 1);
    }
}

/// The words of a line.
pub open spec fn words(s: Seq<u8>) -> Seq<Seq<u8>> {
    words_from(s, 0)
}

/// The byte sequences that the words in `v` hold.
pub open spec fn spellings(v: Seq<Vec<u8>>) -> Seq<Seq<u8>> {
    Seq::new(v.len(), |k: int| v[k]@)
}

/// The length of the white-space character that starts at `i`, or 0.
fn space_at(line: &[u8], i: usize) -> (width: usize)
    requires
        i < line@.len(),
    ensures
        width == space_len(line@, i as int),
        i + width <= line@.len(),
{
    let n = line.len();
    let a = line[i];
    if (0x09 <= a && a <= 0x0d) || a == 0x20 {
        1
    } else if a == 0xc2 {
        if n - i > 1 && (line[i + 1] == 0x85 || line[i + 1] == 0xa0) {
            2
        } else {
            0
        }
    } else if n - i > 2 {
        let b = line[i + 1];
        let c = line[i + 2];
        let wide = (a == 0xe1 && b == 0x9a && c == 0x80) || (a == 0xe2 && b == 0x80 && ((0x80 <= c
            && c <= 0x8a) || c == 0xa8 || c == 0xa9 || c == 0xaf)) || (a == 0xe2 && b == 0x81 && c
            == 0x9f) || (a == 0xe3 && b == 0x80 && c == 0x80);
        if wide {
            3
        } else {
            0
        }
    } else {
        0
    }
}

/// Splits a line into its words.
pub fn split_words(line: &[u8]) -> (out: Vec<Vec<u8>>)
    ensures
        spellings(out@) == words(line@),
{
    let mut out: Vec<Vec<u8>> = Vec::new();
    let mut i: usize = 0;
    assert(spellings(out@) + words_from(line@, 0) =~= words(line@));
    while i < line.len()
        invariant
            i <= line@.len(),
            spellings(out@) + words_from(line@, i as int) == words(line@),
        decreases line@.len() - i,
    {
        let width = space_at(line, i);
        if width > 0 {
            i = i + width;
        } else {
            let start = i;
            proof {
                lemma_word_end(line@, start as int);
            }
            i = i + 1;
            while i < line.len() && space_at(line, i) == 0
                invariant
                    start < i <= line@.len(),
                    word_end(line@, i as int) == word_end(line@, start as int),
                decreases line@.len() - i,
            {
                i = i + 1;
            }
            let word = vstd::slice::slice_to_vec(vstd::slice::slice_subrange(line, start, i));
            let ghost before = spellings(out@);
            out.push(word);
            proof {
                let rest = words_from(line@, i as int);
                assert(spellings(out@) =~= before + seq![word@]);
                assert(words_from(line@, start as int) == seq![word@] + rest);
                assert(spellings(out@) + rest =~= before + (seq![word@] + rest));
            }
        }
    }
    assert(spellings(out@) + words_from(line@, i as int) =~= spellings(out@));
    out
}

/// Whether the byte is an ASCII digit.
pub open spec fn is_digit(b: u8) -> bool {
    0x30 <= b <= 0x39
}

/// Whether every byte is an ASCII digit.
pub open spec fn all_digits(s: Seq<u8>) -> bool {
    forall|i: int| 0 <= i < s.len() ==> is_digit(#[trigger] s[i])
}

/// The number that the digits spell in base ten.
pub open spec fn decimal(s: Seq<u8>) -> nat
    decreases s.len(),
{
    if s.len() == 0 {
        0
    } else {
        decimal(s.drop_last()) * 10 + (s.last() - 0x30) as nat
    }
}

/// The digits of a word: the word without a leading plus sign.
pub open spec fn digits_of(word: Seq<u8>) -> Seq<u8> {
    if word.len() > 0 && word[0] == '+' as u8 {
        word.drop_first()
    } else {
        word
    }
}

/// The number that a word spells, if it is one: an optional plus sign, then
/// one or more digits whose value fits the machine word.
pub open spec fn number(word: Seq<u8>) -> Option<usize> {
    let digits = digits_of(word);
    if digits.len() > 0 && all_digits(digits) && decimal(digits) <= usize::MAX {
        Some(decimal(digits) as usize)
    } else {
        None
    }
}

/// More digits never spell a smaller number.
proof fn lemma_decimal_grows(s: Seq<u8>, k: int)
    requires
        all_digits(s),
        0 <= k <= s.len(),
    ensures
        decimal(s.take(k)) <= decimal(s),
    decreases s.len() - k,
{
    if k == s.len() {
        assert(s.take(k) =~= s);
    } else {
        assert(s.drop_last().take(k) =~= s.take(k));
        assert forall|i: int| 0 <= i < s.drop_last().len() implies is_digit(
            #[trigger] s.drop_last()[i],
        ) by {
            assert(is_digit(s[i]));
        }
        lemma_decimal_grows(s.drop_last(), k);
        assert(is_digit(s[s.len() - 1]));
    }
}

/// Reads a word as a number.
pub fn parse_number(word: &[u8]) -> (value: Option<usize>)
    ensures
        value == number(word@),
{
    let n = word.len();
    let first: usize = if n > 0 && word[0] == '+' as u8 {
        1
    } else {
        0
    };
    let ghost digits = digits_of(word@);
    assert(digits =~= word@.subrange(first as int, n as int));
    if first == n {
        return None;
    }
    let mut value: usize = 0;
    let mut i: usize = first;
    assert(digits.take(0) =~= Seq::<u8>::empty());
    while i < n
        invariant
            first <= i <= n,
            n == word@.len(),
            digits == digits_of(word@),
            digits == word@.subrange(first as int, n as int),
            all_digits(digits.take(i - first)),
            value == decimal(digits.take(i - first)),
        decreases n - i,
    {
        let b = word[i];
        let ghost k = i - first;
        assert(digits[k] == b);
        if b < 0x30 || b > 0x39 {
            assert(!is_digit(digits[k]));
            return None;
        }
        let d: usize = (b - 0x30) as usize;
        proof {
            assert(digits.take(k + 1).drop_last() =~= digits.take(k));
            assert(digits.take(k + 1).last() == b);
            assert(decimal(digits.take(k + 1)) == value * 10 + d);
            assert forall|j: int| 0 <= j < k + 1 implies is_digit(
                #[trigger] digits.take(k + 1)[j],
            ) by {
                if j < k {
                    assert(is_digit(digits.take(k)[j]));
                }
            }
        }
        if value > (usize::MAX - d) / 10 {
            proof {
                if all_digits(digits) {
                    lemma_decimal_grows(digits, k + 1);
                }
            }
            return None;
        }
        value = value * 10 + d;
        i = i + 1;
    }
    assert(digits.take(n - first) =~= digits);
    Some(value)
}

/// The verbs of the command language.
#[derive(Debug, Clone, Copy, PartialEq, Eq)]
pub enum Verb {
    Insert,
    Delete,
    Find,
    Read,
    Update,
    Dump,
}

impl Verb {
    /// The word that names the verb, in upper case.
    pub open spec fn word(self) -> Seq<u8> {
        match self {
            Verb::Insert => seq!['I' as u8, 'N' as u8, 'S' as u8, 'E' as u8, 'R' as u8, 'T' as u8],
            Verb::Delete => seq!['D' as u8, 'E' as u8, 'L' as u8, 'E' as u8, 'T' as u8, 'E' as u8],
            Verb::Find => seq!['F' as u8, 'I' as u8, 'N' as u8, 'D' as u8],
            Verb::Read => seq!['R' as u8, 'E' as u8, 'A' as u8, 'D' as u8],
            Verb::Update => seq!['U' as u8, 'P' as u8, 'D' as u8, 'A' as u8, 'T' as u8, 'E' as u8],
            Verb::Dump => seq!['D' as u8, 'U' as u8, 'M' as u8, 'P' as u8],
        }
    }

    /// The verb that the word names, if it names one.
    pub open spec fn named_by(word: Seq<u8>) -> Option<Verb> {
        if word == Verb::Insert.word() {
            Some(Verb::Insert)
        } else if word == Verb::Delete.word() {
            Some(Verb::Delete)
        } else if word == Verb::Find.word() {
            Some(Verb::Find)
        } else if word == Verb::Read.word() {
            Some(Verb::Read)
        } else if word == Verb::Update.word() {
            Some(Verb::Update)
        } else if word == Verb::Dump.word() {
            Some(Verb::Dump)
        } else {
            None
        }
    }

    /// The verb that the word names, if it names one.
    pub fn from_word(word: &[u8]) -> (verb: Option<Verb>)
        ensures
            verb == Verb::named_by(word@),
    {
        let insert: [u8; 6] = ['I' as u8, 'N' as u8, 'S' as u8, 'E' as u8, 'R' as u8, 'T' as u8];
        let delete: [u8; 6] = ['D' as u8, 'E' as u8, 'L' as u8, 'E' as u8, 'T' as u8, 'E' as u8];
        let find: [u8; 4] = ['F' as u8, 'I' as u8, 'N' as u8, 'D' as u8];
        let read: [u8; 4] = ['R' as u8, 'E' as u8, 'A' as u8, 'D' as u8];
        let update: [u8; 6] = ['U' as u8, 'P' as u8, 'D' as u8, 'A' as u8, 'T' as u8, 'E' as u8];
        let dump: [u8; 4] = ['D' as u8, 'U' as u8, 'M' as u8, 'P' as u8];
        assert(insert@ =~= Verb::Insert.word());
        assert(delete@ =~= Verb::Delete.word());
        assert(find@ =~= Verb::Find.word());
        assert(read@ =~= Verb::Read.word());
        assert(update@ =~= Verb::Update.word());
        assert(dump@ =~= Verb::Dump.word());
        if same_bytes(word, insert.as_slice()) {
            Some(Verb::Insert)
        } else if same_bytes(word, delete.as_slice()) {
            Some(Verb::Delete)
        } else if same_bytes(word, find.as_slice()) {
            Some(Verb::Find)
        } else if same_bytes(word, read.as_slice()) {
            Some(Verb::Read)
        } else if same_bytes(word, update.as_slice()) {
            Some(Verb::Update)
        } else if same_bytes(word, dump.as_slice()) {
            Some(Verb::Dump)
        } else {
            None
        }
    }
}

/// Whether the two slices hold the same bytes.
fn same_bytes(a: &[u8], b: &[u8]) -> (same: bool)
    ensures
        same == (a@ == b@),
{
    if a.len() != b.len() {
        return false;
    }
    let mut i: usize = 0;
    while i < a.len()
        invariant
            a@.len() == b@.len(),
            i <= a@.len(),
            forall|k: int| 0 <= k < i ==> a@[k] == b@[k],
        decreases a@.len() - i,
    {
        if a[i] != b[i] {
            return false;
        }
        i = i + 1;
    }
    assert(a@ =~= b@);
    true
}

/// One line of the command language, read.
#[derive(Debug, PartialEq, Eq)]
pub enum Command {
    /// The line holds no word.
    Blank,
    /// `INSERT <size> <data>`: allocate `size` bytes filled from `data`.
    Insert { size: usize, data: Vec<u8> },
    /// `DELETE <id>`: release the block of `id`.
    Delete { id: usize },
    /// `FIND <id>`: look the block of `id` up.
    Find { id: usize },
    /// `READ <id>`: read the block of `id`.
    Read { id: usize },
    /// `UPDATE <id> <data>`: write `data` to the block of `id`.
    Update { id: usize, data: Vec<u8> },
    /// `DUMP`: report every block.
    Dump,
    /// The verb is known, the number of words behind it is wrong.
    Incomplete { verb: Verb },
    /// The verb is known, the size or identifier behind it is no number.
    NotNumeric { verb: Verb },
    /// The first word is no verb.
    Unknown { word: Vec<u8> },
}

/// What a command says, as plain values.
pub ghost enum CommandView {
    Blank,
    Insert { size: usize, data: Seq<u8> },
    Delete { id: usize },
    Find { id: usize },
    Read { id: usize },
    Update { id: usize, data: Seq<u8> },
    Dump,
    Incomplete { verb: Verb },
    NotNumeric { verb: Verb },
    Unknown { word: Seq<u8> },
}

impl View for Command {
    type V = CommandView;

    open spec fn view(&self) -> CommandView {
        match *self {
            Command::Blank => CommandView::Blank,
            Command::Insert { size, data } => CommandView::Insert { size, data: data@ },
            Command::Delete { id } => CommandView::Delete { id },
            Command::Find { id } => CommandView::Find { id },
            Command::Read { id } => CommandView::Read { id },
            Command::Update { id, data } => CommandView::Update { id, data: data@ },
            Command::Dump => CommandView::Dump,
            Command::Incomplete { verb } => CommandView::Incomplete { verb },
            Command::NotNumeric { verb } => CommandView::NotNumeric { verb },
            Command::Unknown { word } => CommandView::Unknown { word: word@ },
        }
    }
}

/// Whether a command of the verb may have `count` words: `READ` takes
/// exactly one word behind the verb; the other verbs take what they need and
/// pass over the rest of the line.
pub open spec fn has_enough(verb: Verb, count: int) -> bool {
    match verb {
        Verb::Insert | Verb::Update => count >= 3,
        Verb::Delete | Verb::Find => count >= 2,
        Verb::Read => count == 2,
        Verb::Dump => count >= 1,
    }
}

/// The command that the words of a line make.
pub open spec fn command_of(w: Seq<Seq<u8>>) -> CommandView {
    if w.len() == 0 {
        CommandView::Blank
    } else {
        match Verb::named_by(w[0]) {
            None => CommandView::Unknown { word: w[0] },
            Some(Verb::Dump) => CommandView::Dump,
            Some(verb) => if !has_enough(verb, w.len() as int) {
                CommandView::Incomplete { verb }
            } else {
                match number(w[1]) {
                    None => CommandView::NotNumeric { verb },
                    Some(n) => match verb {
                        Verb::Insert => CommandView::Insert { size: n, data: w[2] },
                        Verb::Delete => CommandView::Delete { id: n },
                        Verb::Find => CommandView::Find { id: n },
                        Verb::Read => CommandView::Read { id: n },
                        Verb::Update => CommandView::Update { id: n, data: w[2] },
                        Verb::Dump => CommandView::Dump,
                    },
                }
            },
        }
    }
}

impl Command {
    /// Reads one line.
    pub fn parse(line: &[u8]) -> (command: Command)
        ensures
            command@ == command_of(words(line@)),
    {
        let mut w = split_words(line);
        let count = w.len();
        if count == 0 {
            return Command::Blank;
        }
        assert(spellings(w@)[0] == w@[0]@);
        let verb = match Verb::from_word(w[0].as_slice()) {
            Some(verb) => verb,
            None => {
                let word = w.swap_remove(0);
                return Command::Unknown { word };
            },
        };
        let enough = match verb {
            Verb::Insert | Verb::Update => count >= 3,
            Verb::Delete | Verb::Find => count >= 2,
            Verb::Read => count == 2,
            Verb::Dump => {
                return Command::Dump;
            },
        };
        if !enough {
            return Command::Incomplete { verb };
        }
        assert(spellings(w@)[1] == w@[1]@);
        let n = match parse_number(w[1].as_slice()) {
            Some(n) => n,
            None => {
                return Command::NotNumeric { verb };
            },
        };
        match verb {
            Verb::Insert => {
                assert(spellings(w@)[2] == w@[2]@);
                let data = w.swap_remove(2);
                Command::Insert { size: n, data }
            },
            Verb::Delete => Command::Delete { id: n },
            Verb::Find => Command::Find { id: n },
            Verb::Read => Command::Read { id: n },
            Verb::Update => {
                assert(spellings(w@)[2] == w@[2]@);
                let data = w.swap_remove(2);
                Command::Update { id: n, data }
            },
            Verb::Dump => Command::Dump,
        }
    }
}

} // verus!
