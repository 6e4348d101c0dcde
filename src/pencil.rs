use vstd::prelude::*;

verus! {

/// Whether `c` has Unicode's Uppercase property, as `char::is_uppercase` decides.
pub uninterp spec fn uppercase(c: char) -> bool;

/// Relies on `char::is_uppercase`: its answer depends on the character alone.
#[verifier::external_body]
fn is_uppercase(c: char) -> (r: bool)
    ensures
        r == uppercase(c),
{
    c.is_uppercase()
}

/// Relies on `str::chars`: the characters of `s`, in order.
#[verifier::external_body]
fn chars_of(s: &str) -> (r: Vec<char>)
    ensures
        r@ == s@,
{
    s.chars().collect()
}

/// Relies on `String::push`: appends one character.
#[verifier::external_body]
fn push_char(s: &mut String, c: char)
    ensures
        final(s)@ == old(s)@.push(c),
{
    s.push(c)
}

/// Space, newline and tab: written as they are and for free, even out of lead.
pub open spec fn is_blank_char(c: char) -> bool {
    c == ' ' || c == '\n' || c == '\t'
}

/// What writing one character costs: two for a capital, one otherwise.
pub open spec fn char_cost(c: char) -> nat {
    if uppercase(c) { 2 } else { 1 }
}

/// The character that lands on the page, and the budget left, when `c` is
/// written with budget `d`. Whitespace is free; a character the budget cannot
/// pay for in full is written as a space and costs nothing.
pub open spec fn write_char(d: nat, c: char) -> (char, nat) {
    if is_blank_char(c) {
        (c, d)
    } else if char_cost(c) > d {
        (' ', d)
    } else {
        (c, (d - char_cost(c)) as nat)
    }
}

/// What writing `text` with budget `d` puts on the page, and the budget left.
pub open spec fn write_text(d: nat, text: Seq<char>) -> (Seq<char>, nat)
    decreases text.len(),
{
    if text.len() == 0 {
        (Seq::empty(), d)
    } else {
        let (out, left) = write_text(d, text.drop_last());
        let (c, rest) = write_char(left, text.last());
        (out.push(c), rest)
    }
}

/// A pencil with a finite write budget, a number of sharpenings left and an
/// eraser that wears down, together with the page it has written on.
pub struct Pencil {
    /// Write budget that a sharpening restores.
    pub max_durability: u32,
    /// Write budget left.
    pub durability: u32,
    /// Characters the eraser can still blank.
    pub eraser_durability: u32,
    /// Sharpenings left.
    pub length: u32,
    /// Everything written so far.
    pub page: String,
}

/// Writing never raises the write budget: not in one call, nor in a second
/// call that follows it.
pub proof fn writes_never_raise_durability(d: nat, first: Seq<char>, second: Seq<char>)
    ensures
        write_text(d, first).1 <= d,
        write_text(write_text(d, first).1, second).1 <= write_text(d, first).1,
{
    lemma_write_budget_shrinks(d, first);
    lemma_write_budget_shrinks(write_text(d, first).1, second);
}

proof fn lemma_write_budget_shrinks(d: nat, text: Seq<char>)
    ensures
        write_text(d, text).1 <= d,
    decreases text.len(),
{
    if text.len() > 0 {
        lemma_write_budget_shrinks(d, text.drop_last());
    }
}

/// Writing text made of whitespace alone puts it on the page as it is and
/// leaves the write budget where it was.
pub proof fn whitespace_is_free(d: nat, text: Seq<char>)
    requires
        forall|i: int| 0 <= i < text.len() ==> is_blank_char(#[trigger] text[i]),
    ensures
        write_text(d, text) == (text, d),
    decreases text.len(),
{
    if text.len() > 0 {
        whitespace_is_free(d, text.drop_last());
        assert(text.drop_last().push(text.last()) =~= text);
    }
}

/// Out of lead, every character but whitespace lands on the page as a space,
/// and the budget stays empty.
pub proof fn out_of_lead_writes_spaces(text: Seq<char>)
    ensures
        write_text(0, text) == (
            Seq::new(text.len(), |i: int| if is_blank_char(text[i]) { text[i] } else { ' ' }),
            0nat,
        ),
    decreases text.len(),
{
    if text.len() > 0 {
        out_of_lead_writes_spaces(text.drop_last());
        let expect = Seq::new(text.len(), |i: int| if is_blank_char(text[i]) { text[i] } else { ' ' });
        let before = Seq::new(
            text.drop_last().len(),
            |i: int| if is_blank_char(text.drop_last()[i]) { text.drop_last()[i] } else { ' ' },
        );
        assert(before.push(write_char(0, text.last()).0) =~= expect);
    }
}

/// The start of the last match of `word` in `page` when the page is scanned
/// from `p` on, matches taken leftmost first and never overlapping. An empty
/// word has no match.
pub open spec fn last_match_from(page: Seq<char>, word: Seq<char>, p: int) -> Option<int>
    decreases page.len() - p,
{
    if word.len() == 0 || p < 0 || p + word.len() > page.len() {
        None
    } else if page.subrange(p, p + word.len()) == word {
        match last_match_from(page, word, p + word.len()) {
            Some(q) => Some(q),
            None => Some(p),
        }
    } else {
        last_match_from(page, word, p + 1)
    }
}

/// The start of the last of the non-overlapping, leftmost-first matches of
/// `word` in `page`.
pub open spec fn last_match(page: Seq<char>, word: Seq<char>) -> Option<int> {
    last_match_from(page, word, 0)
}

/// `page` with the positions from `lo` up to `hi` turned into spaces.
pub open spec fn blank_range(page: Seq<char>, lo: int, hi: int) -> Seq<char> {
    Seq::new(page.len(), |i: int| if lo <= i < hi { ' ' } else { page[i] })
}

/// How many characters an eraser with budget `eraser` blanks of a match of
/// length `len`.
pub open spec fn erase_count(len: nat, eraser: nat) -> nat {
    if len < eraser { len } else { eraser }
}

/// The later of a match found from here on and one found before.
pub open spec fn later_match(next: Option<int>, earlier: Option<usize>) -> Option<int> {
    match next {
        Some(q) => Some(q),
        None => match earlier {
            Some(e) => Some(e as int),
            None => None,
        },
    }
}

/// A match is where the word stands on the page.
pub proof fn last_match_is_an_occurrence(page: Seq<char>, word: Seq<char>)
    ensures
        last_match(page, word) matches Some(s) ==> 0 <= s && s + word.len() <= page.len()
            && page.subrange(s, s + word.len()) == word,
{
    lemma_match_from_is_occurrence(page, word, 0);
}

proof fn lemma_match_from_is_occurrence(page: Seq<char>, word: Seq<char>, p: int)
    ensures
        last_match_from(page, word, p) matches Some(s) ==> 0 <= s && s + word.len() <= page.len()
            && page.subrange(s, s + word.len()) == word,
    decreases page.len() - p,
{
    if word.len() == 0 || p < 0 || p + word.len() > page.len() {
    } else if page.subrange(p, p + word.len()) == word {
        lemma_match_from_is_occurrence(page, word, p + word.len());
    } else {
        lemma_match_from_is_occurrence(page, word, p + 1);
    }
}

/// A word that stands nowhere on the page has no match, so erasing it leaves
/// the page and the eraser as they were.
pub proof fn absent_word_has_no_match(page: Seq<char>, word: Seq<char>)
    requires
        forall|p: int| 0 <= p && p + word.len() <= page.len() ==> #[trigger] page.subrange(p, p + word.len()) != word,
    ensures
        last_match(page, word) == None::<int>,
{
    last_match_is_an_occurrence(page, word);
    if let Some(s) = last_match(page, word) {
        assert(page.subrange(s, s + word.len()) != word);
    }
}

/// Whether `word` stands in `page` at `p`.
fn occurs_at(page: &Vec<char>, word: &Vec<char>, p: usize) -> (r: bool)
    requires
        p + word.len() <= page.len(),
    ensures
        r == (page@.subrange(p as int, p + word.len()) == word@),
{
    let mut k: usize = 0;
    while k < word.len()
        invariant
            k <= word.len(),
            p + word.len() <= page.len(),
            page@.subrange(p as int, p + k) == word@.take(k as int),
        decreases word.len() - k,
    {
        if page[p + k] != word[k] {
            proof {
                assert(page@.subrange(p as int, p + word.len())[k as int] != word@[k as int]);
            }
            return false;
        }
        proof {
            assert(page@.subrange(p as int, p + k + 1) =~= word@.take(k + 1));
        }
        k = k + 1;
    }
    proof {
        assert(word@.take(k as int) =~= word@);
    }
    true
}

/// The start of the last of the non-overlapping, leftmost-first matches of
/// `word` in `page`.
fn find_last_match(page: &Vec<char>, word: &Vec<char>) -> (r: Option<usize>)
    ensures
        later_match(None, r) == last_match(page@, word@),
        r matches Some(s) ==> s + word.len() <= page.len(),
{
    let wl = word.len();
    let mut last: Option<usize> = None;
    if wl == 0 {
        return None;
    }
    let mut p: usize = 0;
    while p <= page.len() && wl <= page.len() - p
        invariant
            wl == word.len(),
            wl > 0,
            p <= page.len(),
            later_match(last_match_from(page@, word@, p as int), last) == last_match(page@, word@),
            last matches Some(s) ==> s + wl <= page.len(),
        decreases page.len() - p,
    {
        if occurs_at(page, word, p) {
            last = Some(p);
            p = p + wl;
        } else {
            p = p + 1;
        }
    }
    last
}

impl Pencil {
    /// The write budget never exceeds what a sharpening restores.
    pub open spec fn wf(&self) -> bool {
        self.durability <= self.max_durability
    }

    pub fn new(max_durability: u32, length: u32, eraser_durability: u32) -> (r: Pencil)
        ensures
            r.wf(),
            r.max_durability == max_durability,
            r.durability == max_durability,
            r.length == length,
            r.eraser_durability == eraser_durability,
            r.page@ == Seq::<char>::empty(),
    {
        Pencil { max_durability, durability: max_durability, length, eraser_durability, page: String::new() }
    }

    /// Writes `string` after what is on the page, one character at a time,
    /// spending the write budget as `write_text` says.
    pub fn write(&mut self, string: String)
        ensures
            final(self).page@ == old(self).page@ + write_text(old(self).durability as nat, string@).0,
            final(self).durability == write_text(old(self).durability as nat, string@).1,
            final(self).durability <= old(self).durability,
            final(self).max_durability == old(self).max_durability,
            final(self).length == old(self).length,
            final(self).eraser_durability == old(self).eraser_durability,
            old(self).wf() ==> final(self).wf(),
    {
        let text = chars_of(string.as_str());
        let ghost d0 = self.durability as nat;
        let ghost page0 = self.page@;
        let mut i: usize = 0;
        while i < text.len()
            invariant
                i <= text.len(),
                text@ == string@,
                self.page@ == page0 + write_text(d0, text@.take(i as int)).0,
                self.durability == write_text(d0, text@.take(i as int)).1,
                self.durability <= d0,
                self.max_durability == old(self).max_durability,
                self.length == old(self).length,
                self.eraser_durability == old(self).eraser_durability,
                d0 == old(self).durability,
            decreases text.len() - i,
        {
            let c = text[i];
            proof {
                assert(text@.take(i + 1).drop_last() =~= text@.take(i as int));
            }
            if c == ' ' || c == '\n' || c == '\t' {
                push_char(&mut self.page, c);
            } else {
                let cost: u32 = if is_uppercase(c) { 2 } else { 1 };
                if cost > self.durability {
                    push_char(&mut self.page, ' ');
                } else {
                    push_char(&mut self.page, c);
                    self.durability = self.durability - cost;
                }
            }
            proof {
                assert(self.page@ =~= page0 + write_text(d0, text@.take(i + 1)).0);
            }
            i = i + 1;
        }
        proof {
            assert(text@.take(text.len() as int) =~= text@);
        }
    }

    /// Blanks the last match of `word` on the page from its end backwards, as
    /// many characters as the eraser has budget for, and wears the eraser down
    /// by that many. Without a match nothing changes.
    pub fn erase(&mut self, word: String)
        ensures
            final(self).page@.len() == old(self).page@.len(),
            final(self).eraser_durability <= old(self).eraser_durability,
            last_match(old(self).page@, word@) matches None ==> final(self).page@ == old(self).page@
                && final(self).eraser_durability == old(self).eraser_durability,
            last_match(old(self).page@, word@) matches Some(s) ==> ({
                let n = erase_count(word@.len(), old(self).eraser_durability as nat);
                &&& final(self).page@ == blank_range(old(self).page@, s + word@.len() - n, s + word@.len())
                &&& final(self).eraser_durability == old(self).eraser_durability - n
            }),
            final(self).max_durability == old(self).max_durability,
            final(self).durability == old(self).durability,
            final(self).length == old(self).length,
            old(self).wf() ==> final(self).wf(),
    {
        let page = chars_of(self.page.as_str());
        let w = chars_of(word.as_str());
        let found = find_last_match(&page, &w);
        if let Some(s) = found {
            let wl = w.len();
            let eraser = self.eraser_durability as usize;
            let n: usize = if wl < eraser { wl } else { eraser };
            let hi: usize = s + wl;
            let lo: usize = hi - n;
            let mut blanked = String::new();
            let mut i: usize = 0;
            while i < page.len()
                invariant
                    i <= page.len(),
                    blanked@ == blank_range(page@, lo as int, hi as int).take(i as int),
                decreases page.len() - i,
            {
                if lo <= i && i < hi {
                    push_char(&mut blanked, ' ');
                } else {
                    push_char(&mut blanked, page[i]);
                }
                proof {
                    assert(blanked@ =~= blank_range(page@, lo as int, hi as int).take(i + 1));
                }
                i = i + 1;
            }
            proof {
                assert(blanked@ =~= blank_range(page@, lo as int, hi as int));
            }
            self.page = blanked;
            self.eraser_durability = self.eraser_durability - n as u32;
        }
    }

    /// With sharpenings left, restores the write budget and uses up one
    /// sharpening; with none left, does nothing.
    pub fn sharpen(&mut self)
        ensures
            old(self).length > 0 ==> final(self).durability == old(self).max_durability
                && final(self).length == old(self).length - 1,
            old(self).length == 0 ==> final(self).durability == old(self).durability
                && final(self).length == 0,
            final(self).max_durability == old(self).max_durability,
            final(self).eraser_durability == old(self).eraser_durability,
            final(self).page@ == old(self).page@,
            old(self).wf() ==> final(self).wf(),
    {
        if self.length != 0 {
            self.durability = self.max_durability;
            self.length = self.length - 1;
        }
    }
}

} // verus!
