//! The puzzle: three words whose numbers must satisfy `first + second == result`.
use vstd::prelude::*;
use vstd::string::*;

verus! {

/// Names what `str::to_lowercase` returns for a string.
pub uninterp spec fn lower_of(s: Seq<char>) -> Seq<char>;

/// Whether every character of `s` is ASCII.
pub open spec fn all_ascii(s: Seq<char>) -> bool {
    forall|i: int| 0 <= i < s.len() ==> (#[trigger] s[i] as u32) < 128
}

/// Relies on `str::to_lowercase`: the result depends on the characters alone, and on
/// ASCII text it maps `'A'..='Z'` to `'a'..='z'` and keeps every other character.
#[verifier::external_body]
pub(crate) fn lowercase(s: &str) -> (r: String)
    ensures
        r@ == lower_of(s@),
        all_ascii(s@) ==> r@ == s@.map_values(|c: char| ascii_lower_char(c)),
{
    s.to_lowercase()
}

/// `c` mapped to ASCII lower case: `'A'..='Z'` become `'a'..='z'`, all else stays.
pub open spec fn ascii_lower_char(c: char) -> char {
    if 'A' <= c && c <= 'Z' {
        char_add_32(c)
    } else {
        c
    }
}

/// The character 32 code points above `c`.
pub open spec fn char_add_32(c: char) -> char {
    choose|d: char| #[trigger] (d as u32) == c as u32 + 32
}

/// The abstract content of a puzzle: its three words and its distinct letters.
pub struct PuzzleView {
    pub first: Seq<char>,
    pub second: Seq<char>,
    pub result: Seq<char>,
    pub letters: Seq<char>,
}

/// The letters of `s`, each once, in order of first appearance.
pub open spec fn distinct_letters(s: Seq<char>) -> Seq<char>
    decreases s.len(),
{
    if s.len() == 0 {
        Seq::empty()
    } else {
        let d = distinct_letters(s.drop_last());
        if d.contains(s.last()) {
            d
        } else {
            d.push(s.last())
        }
    }
}

/// The number of letters a playable puzzle has: one per decimal digit.
pub const LETTER_COUNT: usize = 10;

/// The longest word whose number, and the sum of two such, fits in `u32`.
pub const MAX_WIDTH: usize = 9;

impl PuzzleView {
    /// The letters are the distinct letters of the three words.
    pub open spec fn wf(self) -> bool {
        self.letters == distinct_letters(self.first + self.second + self.result)
    }

    /// Aligned columns, numbers that fit in `u32`, and exactly one letter per digit.
    pub open spec fn playable(self) -> bool {
        &&& self.wf()
        &&& self.second.len() == self.first.len()
        &&& self.result.len() == self.first.len()
        &&& 1 <= self.first.len() <= MAX_WIDTH
        &&& self.letters.len() == LETTER_COUNT
    }

    /// The number of columns.
    pub open spec fn width(self) -> nat {
        self.first.len()
    }
}

/// Each letter of `s` appears in `distinct_letters(s)`, which holds no other and no repeat.
pub proof fn lemma_distinct_letters(s: Seq<char>)
    ensures
        distinct_letters(s).no_duplicates(),
        forall|c: char| distinct_letters(s).contains(c) <==> s.contains(c),
    decreases s.len(),
{
    if s.len() > 0 {
        lemma_distinct_letters(s.drop_last());
        let d = distinct_letters(s.drop_last());
        assert forall|c: char| s.contains(c) <==> (s.drop_last().contains(c) || c == s.last()) by {
            if s.contains(c) {
                let i = choose|i: int| 0 <= i < s.len() && s[i] == c;
                if i < s.len() - 1 {
                    assert(s.drop_last()[i] == c);
                }
            }
            if s.drop_last().contains(c) {
                let i = choose|i: int| 0 <= i < s.drop_last().len() && s.drop_last()[i] == c;
                assert(s[i] == c);
            }
            if c == s.last() {
                assert(s[s.len() - 1] == c);
            }
        }
        if !d.contains(s.last()) {
            assert forall|c: char| d.push(s.last()).contains(c) <==> (d.contains(c) || c == s.last()) by {
                if d.push(s.last()).contains(c) {
                    let i = choose|i: int| 0 <= i < d.push(s.last()).len() && d.push(s.last())[i] == c;
                    if i < d.len() {
                        assert(d[i] == c);
                    }
                }
                if d.contains(c) {
                    let i = choose|i: int| 0 <= i < d.len() && d[i] == c;
                    assert(d.push(s.last())[i] == c);
                }
                if c == s.last() {
                    assert(d.push(s.last())[d.len() as int] == c);
                }
            }
        }
    }
}

/// A cryptarithmetic puzzle over three lower-case words.
#[derive(Debug)]
pub struct Problem {
    first: String,
    second: String,
    result: String,
    letters: Vec<char>,
}

impl View for Problem {
    type V = PuzzleView;

    closed spec fn view(&self) -> PuzzleView {
        PuzzleView {
            first: self.first@,
            second: self.second@,
            result: self.result@,
            letters: self.letters@,
        }
    }
}

/// Whether `c` is in `v`.
fn has_letter(v: &Vec<char>, c: char) -> (r: bool)
    ensures
        r == v@.contains(c),
{
    let mut i: usize = 0;
    while i < v.len()
        invariant
            i <= v@.len(),
            forall|j: int| 0 <= j < i ==> v@[j] != c,
        decreases v@.len() - i,
    {
        if v[i] == c {
            return true;
        }
        i = i + 1;
    }
    false
}

/// Appends to `letters` each letter of `word` it does not hold yet.
fn collect_letters(letters: &mut Vec<char>, word: &str, Ghost(seen): Ghost<Seq<char>>)
    requires
        old(letters)@ == distinct_letters(seen),
    ensures
        final(letters)@ == distinct_letters(seen + word@),
{
    let n = word.unicode_len();
    let mut i: usize = 0;
    while i < n
        invariant
            n == word@.len(),
            i <= n,
            letters@ == distinct_letters(seen + word@.take(i as int)),
        decreases n - i,
    {
        let c = word.get_char(i);
        proof {
            let next = seen + word@.take(i + 1);
            assert(next.drop_last() =~= seen + word@.take(i as int));
            assert(next.last() == c);
        }
        if !has_letter(letters, c) {
            letters.push(c);
        }
        i = i + 1;
    }
    assert(word@.take(n as int) =~= word@);
}

impl Problem {
    /// A puzzle over the given words, each lowered with `to_lowercase`.
    pub fn new(first: &str, second: &str, result: &str) -> (p: Problem)
        ensures
            p@.first == lower_of(first@),
            p@.second == lower_of(second@),
            p@.result == lower_of(result@),
            all_ascii(first@) ==> p@.first == first@.map_values(|c: char| ascii_lower_char(c)),
            all_ascii(second@) ==> p@.second == second@.map_values(|c: char| ascii_lower_char(c)),
            all_ascii(result@) ==> p@.result == result@.map_values(|c: char| ascii_lower_char(c)),
            p@.wf(),
    {
        let first = lowercase(first);
        let second = lowercase(second);
        let result = lowercase(result);
        let mut letters: Vec<char> = Vec::new();
        assert(distinct_letters(Seq::empty()) == Seq::<char>::empty());
        collect_letters(&mut letters, first.as_str(), Ghost(Seq::empty()));
        assert(Seq::<char>::empty() + first@ =~= first@);
        collect_letters(&mut letters, second.as_str(), Ghost(first@));
        collect_letters(&mut letters, result.as_str(), Ghost(first@ + second@));
        Problem { first, second, result, letters }
    }

    /// The first word.
    pub fn first(&self) -> (r: &String)
        ensures
            r@ == self@.first,
    {
        &self.first
    }

    /// The second word.
    pub fn second(&self) -> (r: &String)
        ensures
            r@ == self@.second,
    {
        &self.second
    }

    /// The word that holds the sum.
    pub fn result(&self) -> (r: &String)
        ensures
            r@ == self@.result,
    {
        &self.result
    }

    /// The distinct letters of the three words.
    pub fn letters(&self) -> (r: &Vec<char>)
        ensures
            r@ == self@.letters,
    {
        &self.letters
    }

    /// The number of columns, that is the length of the first word.
    pub fn width(&self) -> (r: usize)
        ensures
            r == self@.width(),
    {
        self.first.as_str().unicode_len()
    }

    /// The letters of column `i` (counted from the left) of the three words.
    pub fn column(&self, i: usize) -> (r: (char, char, char))
        requires
            self@.playable(),
            i < self@.width(),
        ensures
            r == (self@.first[i as int], self@.second[i as int], self@.result[i as int]),
    {
        (
            self.first.as_str().get_char(i),
            self.second.as_str().get_char(i),
            self.result.as_str().get_char(i),
        )
    }

    /// Whether the searchers can work on this puzzle.
    pub fn is_playable(&self) -> (r: bool)
        requires
            self@.wf(),
        ensures
            r == self@.playable(),
    {
        let w = self.first.as_str().unicode_len();
        let w2 = self.second.as_str().unicode_len();
        let w3 = self.result.as_str().unicode_len();
        w2 == w && w3 == w && 1 <= w && w <= MAX_WIDTH && self.letters.len() == LETTER_COUNT
    }
}

impl Default for Problem {
    /// The puzzle DONALD + GERALD = ROBERT.
    fn default() -> (p: Problem)
        ensures
            p@ == reference_puzzle(),
    {
        proof {
            reveal_strlit("DONALD");
            reveal_strlit("GERALD");
            reveal_strlit("ROBERT");
        }
        Problem::new("DONALD", "GERALD", "ROBERT")
    }
}

/// The puzzle that `Problem::default` builds: donald + gerald = robert.
pub open spec fn reference_puzzle() -> PuzzleView {
    let first = "DONALD"@.map_values(|c: char| ascii_lower_char(c));
    let second = "GERALD"@.map_values(|c: char| ascii_lower_char(c));
    let result = "ROBERT"@.map_values(|c: char| ascii_lower_char(c));
    PuzzleView {
        first,
        second,
        result,
        letters: distinct_letters(first + second + result),
    }
}

/// The reference puzzle can be played: six columns and ten letters.
pub proof fn lemma_reference_playable()
    ensures
        reference_puzzle().playable(),
        reference_puzzle().letters == seq!['d', 'o', 'n', 'a', 'l', 'g', 'e', 'r', 'b', 't'],
{
    reveal_strlit("DONALD");
    reveal_strlit("GERALD");
    reveal_strlit("ROBERT");
    assert(('d' as u32) == ('D' as u32) + 32);
    assert(ascii_lower_char('D') == 'd');
    assert(('o' as u32) == ('O' as u32) + 32);
    assert(ascii_lower_char('O') == 'o');
    assert(('n' as u32) == ('N' as u32) + 32);
    assert(ascii_lower_char('N') == 'n');
    assert(('a' as u32) == ('A' as u32) + 32);
    assert(ascii_lower_char('A') == 'a');
    assert(('l' as u32) == ('L' as u32) + 32);
    assert(ascii_lower_char('L') == 'l');
    assert(('g' as u32) == ('G' as u32) + 32);
    assert(ascii_lower_char('G') == 'g');
    assert(('e' as u32) == ('E' as u32) + 32);
    assert(ascii_lower_char('E') == 'e');
    assert(('r' as u32) == ('R' as u32) + 32);
    assert(ascii_lower_char('R') == 'r');
    assert(('b' as u32) == ('B' as u32) + 32);
    assert(ascii_lower_char('B') == 'b');
    assert(('t' as u32) == ('T' as u32) + 32);
    assert(ascii_lower_char('T') == 't');
    let pz = reference_puzzle();
    assert(pz.first =~= seq!['d', 'o', 'n', 'a', 'l', 'd']);
    assert(pz.second =~= seq!['g', 'e', 'r', 'a', 'l', 'd']);
    assert(pz.result =~= seq!['r', 'o', 'b', 'e', 'r', 't']);
    let all = pz.first + pz.second + pz.result;
    assert(all =~= seq!['d', 'o', 'n', 'a', 'l', 'd', 'g', 'e', 'r', 'a', 'l', 'd', 'r', 'o', 'b', 'e', 'r', 't']);
    let s0 = Seq::<char>::empty();
    assert(distinct_letters(s0) == s0);
    let s1 = s0.push('d');
    lemma_distinct_push(s0, 'd');
    assert(!Seq::<char>::empty().contains('d'));
    assert(distinct_letters(s1) =~= seq!['d']);
    let s2 = s1.push('o');
    lemma_distinct_push(s1, 'o');
    assert(!seq!['d'].contains('o'));
    assert(distinct_letters(s2) =~= seq!['d', 'o']);
    let s3 = s2.push('n');
    lemma_distinct_push(s2, 'n');
    assert(!seq!['d', 'o'].contains('n'));
    assert(distinct_letters(s3) =~= seq!['d', 'o', 'n']);
    let s4 = s3.push('a');
    lemma_distinct_push(s3, 'a');
    assert(!seq!['d', 'o', 'n'].contains('a'));
    assert(distinct_letters(s4) =~= seq!['d', 'o', 'n', 'a']);
    let s5 = s4.push('l');
    lemma_distinct_push(s4, 'l');
    assert(!seq!['d', 'o', 'n', 'a'].contains('l'));
    assert(distinct_letters(s5) =~= seq!['d', 'o', 'n', 'a', 'l']);
    let s6 = s5.push('d');
    lemma_distinct_push(s5, 'd');
    assert(seq!['d', 'o', 'n', 'a', 'l'][0] == 'd');
    assert(distinct_letters(s6) =~= seq!['d', 'o', 'n', 'a', 'l']);
    let s7 = s6.push('g');
    lemma_distinct_push(s6, 'g');
    assert(!seq!['d', 'o', 'n', 'a', 'l'].contains('g'));
    assert(distinct_letters(s7) =~= seq!['d', 'o', 'n', 'a', 'l', 'g']);
    let s8 = s7.push('e');
    lemma_distinct_push(s7, 'e');
    assert(!seq!['d', 'o', 'n', 'a', 'l', 'g'].contains('e'));
    assert(distinct_letters(s8) =~= seq!['d', 'o', 'n', 'a', 'l', 'g', 'e']);
    let s9 = s8.push('r');
    lemma_distinct_push(s8, 'r');
    assert(!seq!['d', 'o', 'n', 'a', 'l', 'g', 'e'].contains('r'));
    assert(distinct_letters(s9) =~= seq!['d', 'o', 'n', 'a', 'l', 'g', 'e', 'r']);
    let s10 = s9.push('a');
    lemma_distinct_push(s9, 'a');
    assert(seq!['d', 'o', 'n', 'a', 'l', 'g', 'e', 'r'][3] == 'a');
    assert(distinct_letters(s10) =~= seq!['d', 'o', 'n', 'a', 'l', 'g', 'e', 'r']);
    let s11 = s10.push('l');
    lemma_distinct_push(s10, 'l');
    assert(seq!['d', 'o', 'n', 'a', 'l', 'g', 'e', 'r'][4] == 'l');
    assert(distinct_letters(s11) =~= seq!['d', 'o', 'n', 'a', 'l', 'g', 'e', 'r']);
    let s12 = s11.push('d');
    lemma_distinct_push(s11, 'd');
    assert(seq!['d', 'o', 'n', 'a', 'l', 'g', 'e', 'r'][0] == 'd');
    assert(distinct_letters(s12) =~= seq!['d', 'o', 'n', 'a', 'l', 'g', 'e', 'r']);
    let s13 = s12.push('r');
    lemma_distinct_push(s12, 'r');
    assert(seq!['d', 'o', 'n', 'a', 'l', 'g', 'e', 'r'][7] == 'r');
    assert(distinct_letters(s13) =~= seq!['d', 'o', 'n', 'a', 'l', 'g', 'e', 'r']);
    let s14 = s13.push('o');
    lemma_distinct_push(s13, 'o');
    assert(seq!['d', 'o', 'n', 'a', 'l', 'g', 'e', 'r'][1] == 'o');
    assert(distinct_letters(s14) =~= seq!['d', 'o', 'n', 'a', 'l', 'g', 'e', 'r']);
    let s15 = s14.push('b');
    lemma_distinct_push(s14, 'b');
    assert(!seq!['d', 'o', 'n', 'a', 'l', 'g', 'e', 'r'].contains('b'));
    assert(distinct_letters(s15) =~= seq!['d', 'o', 'n', 'a', 'l', 'g', 'e', 'r', 'b']);
    let s16 = s15.push('e');
    lemma_distinct_push(s15, 'e');
    assert(seq!['d', 'o', 'n', 'a', 'l', 'g', 'e', 'r', 'b'][6] == 'e');
    assert(distinct_letters(s16) =~= seq!['d', 'o', 'n', 'a', 'l', 'g', 'e', 'r', 'b']);
    let s17 = s16.push('r');
    lemma_distinct_push(s16, 'r');
    assert(seq!['d', 'o', 'n', 'a', 'l', 'g', 'e', 'r', 'b'][7] == 'r');
    assert(distinct_letters(s17) =~= seq!['d', 'o', 'n', 'a', 'l', 'g', 'e', 'r', 'b']);
    let s18 = s17.push('t');
    lemma_distinct_push(s17, 't');
    assert(!seq!['d', 'o', 'n', 'a', 'l', 'g', 'e', 'r', 'b'].contains('t'));
    assert(distinct_letters(s18) =~= seq!['d', 'o', 'n', 'a', 'l', 'g', 'e', 'r', 'b', 't']);
    assert(all =~= s18);
}

/// Adding one letter to a word adds it to the distinct letters unless they hold it.
proof fn lemma_distinct_push(s: Seq<char>, c: char)
    ensures
        distinct_letters(s.push(c)) == (if distinct_letters(s).contains(c) {
            distinct_letters(s)
        } else {
            distinct_letters(s).push(c)
        }),
{
    assert(s.push(c).drop_last() =~= s);
}

} // verus!
