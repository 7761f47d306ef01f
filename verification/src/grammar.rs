//! The grammar engine: a word, an ordered list of production rules, and the
//! rewriting that takes one generation of the word to the next.
use crate::canvas::Canvas;
use crate::rule::{
    has_separator, left_side, lemma_malformed_text_is_no_rule, parse_rule, read_rule, Rule,
};
use crate::text::trim;
use crate::turtle::{pops_covered, start, Rasterizer};
use vstd::prelude::*;

verus! {

/// Whether the rule text `rule` stands for a rule that matches `c`.
pub open spec fn matches(rule: Seq<char>, c: char) -> bool {
    parse_rule(rule) matches Some(r) && r.0 == c
}

/// What `c` becomes under the rules from position `i` on: the replacement of
/// the first of them that matches `c`, or `c` itself where none does.
pub open spec fn production_from(rules: Seq<Seq<char>>, c: char, i: int) -> Seq<char>
    decreases rules.len() - i,
{
    if i < 0 || i >= rules.len() {
        seq![c]
    } else if matches(rules[i], c) {
        parse_rule(rules[i]).unwrap().1
    } else {
        production_from(rules, c, i + 1)
    }
}

/// What `c` becomes under `rules`.
pub open spec fn production(rules: Seq<Seq<char>>, c: char) -> Seq<char> {
    production_from(rules, c, 0)
}

/// The next generation of `word`: the productions of its characters, each
/// taken from `word` as it stands, one after the other.
pub open spec fn rewrite(rules: Seq<Seq<char>>, word: Seq<char>) -> Seq<char>
    decreases word.len(),
{
    if word.len() == 0 {
        Seq::empty()
    } else {
        rewrite(rules, word.drop_last()) + production(rules, word.last())
    }
}

/// What a grammar engine holds.
pub struct GView {
    /// The description of the vocabulary. Nothing is held to it.
    pub vocabulary: Seq<char>,
    /// The current word.
    pub word: Seq<char>,
    /// The rule texts, in the order in which they are tried.
    pub rules: Seq<Seq<char>>,
    /// How often the word has been rewritten.
    pub generation: nat,
}

impl GView {
    /// The engine one generation later.
    pub open spec fn step(self) -> GView {
        GView { word: rewrite(self.rules, self.word), generation: self.generation + 1, ..self }
    }

    /// The engine `n` generations later.
    pub open spec fn advance(self, n: nat) -> GView
        decreases n,
    {
        if n == 0 {
            self
        } else {
            self.advance((n - 1) as nat).step()
        }
    }
}

/// A grammar engine `G = (V, w, P)`: a vocabulary `V`, a word that starts as
/// `w`, and production rules `P`.
pub struct G {
    alphabet: String,
    current: String,
    rules: Vec<String>,
    gen: usize,
}

impl View for G {
    type V = GView;

    closed spec fn view(&self) -> GView {
        GView {
            vocabulary: self.alphabet@,
            word: self.current@,
            rules: self.rules@.map_values(|r: String| r@),
            generation: self.gen as nat,
        }
    }
}

/// The rules that the texts stand for, position by position.
spec fn rules_read(rules: Seq<Option<Rule>>, texts: Seq<Seq<char>>) -> bool {
    &&& rules.len() == texts.len()
    &&& forall|i: int|
        0 <= i < rules.len() ==> match #[trigger] rules[i] {
            Some(rule) => parse_rule(texts[i]) == Some(rule@),
            None => parse_rule(texts[i]) is None,
        }
}

/// The position of the first rule that matches `c`, if one does.
fn first_match(rules: &Vec<Option<Rule>>, c: char, Ghost(texts): Ghost<Seq<Seq<char>>>) -> (r:
    Option<usize>)
    requires
        rules_read(rules@, texts),
    ensures
        match r {
            Some(k) => k < rules.len() && rules[k as int] is Some && production(texts, c)
                == rules[k as int].unwrap().to@,
            None => production(texts, c) == seq![c],
        },
{
    let mut k: usize = 0;
    while k < rules.len()
        invariant
            k <= rules.len(),
            rules_read(rules@, texts),
            production(texts, c) == production_from(texts, c, k as int),
        decreases rules.len() - k,
    {
        match &rules[k] {
            Some(rule) => {
                if rule.from == c {
                    return Some(k);
                }
            },
            None => {},
        }
        k = k + 1;
    }
    None
}

impl G {
    /// An engine at generation 0 with the word `start`. The rule texts are
    /// kept as they are; one that is no rule never matches.
    pub fn new(vocabulary: &str, start: &str, production_rules: Vec<&str>) -> (g: G)
        ensures
            g@ == (GView {
                vocabulary: vocabulary@,
                word: start@,
                rules: production_rules@.map_values(|r: &str| r@),
                generation: 0,
            }),
    {
        let mut rules: Vec<String> = Vec::new();
        let mut i: usize = 0;
        while i < production_rules.len()
            invariant
                i <= production_rules.len(),
                rules@.map_values(|r: String| r@) == production_rules@.take(i as int).map_values(
                    |r: &str| r@,
                ),
            decreases production_rules.len() - i,
        {
            let ghost before = rules@;
            rules.push(String::from_str(production_rules[i]));
            proof {
                assert(rules@.map_values(|r: String| r@) == before.map_values(|r: String| r@).push(
                    production_rules[i as int]@,
                ));
                assert(production_rules@.take(i + 1).map_values(|r: &str| r@)
                    == production_rules@.take(i as int).map_values(|r: &str| r@).push(
                    production_rules[i as int]@,
                ));
            }
            i = i + 1;
        }
        assert(production_rules@.take(i as int) == production_rules@);
        G { alphabet: String::from_str(vocabulary), current: String::from_str(start), rules, gen: 0 }
    }

    /// Reads every rule text of the engine.
    fn read_rules(&self) -> (rules: Vec<Option<Rule>>)
        ensures
            rules_read(rules@, self@.rules),
    {
        let mut rules: Vec<Option<Rule>> = Vec::new();
        let mut i: usize = 0;
        while i < self.rules.len()
            invariant
                i <= self.rules.len(),
                rules_read(rules@, self@.rules.take(i as int)),
            decreases self.rules.len() - i,
        {
            rules.push(read_rule(self.rules[i].as_str()));
            i = i + 1;
        }
        assert(self@.rules.take(i as int) == self@.rules);
        rules
    }

    /// Rewrites the word once: every character becomes its production, or
    /// stays where no rule matches it.
    pub fn next_generation(&mut self)
        requires
            old(self)@.generation < usize::MAX,
        ensures
            final(self)@ == old(self)@.step(),
    {
        let rules = self.read_rules();
        let ghost texts = self@.rules;
        let ghost word = self.current@;
        let mut next = String::new();
        for c in it: self.current.chars()
            invariant
                it.seq() == word,
                rules_read(rules@, texts),
                next@ == rewrite(texts, word.take(it.index())),
        {
            proof {
                let i = it.index();
                assert(word.take(i + 1).drop_last() == word.take(i));
            }
            match first_match(&rules, c, Ghost(texts)) {
                Some(k) => match &rules[k] {
                    Some(rule) => next.append(rule.to.as_str()),
                    None => {},
                },
                None => next.push(c),
            }
        }
        assert(word.take(word.len() as int) == word);
        self.current = next;
        self.gen = self.gen + 1;
    }

    /// Rewrites the word `n` times and returns it.
    pub fn advance_by(&mut self, n: u8) -> (word: &String)
        requires
            old(self)@.generation + n <= usize::MAX,
        ensures
            final(self)@ == old(self)@.advance(n as nat),
            final(self)@.generation == old(self)@.generation + n,
            final(self)@.rules == old(self)@.rules,
            final(self)@.vocabulary == old(self)@.vocabulary,
            word@ == final(self)@.word,
    {
        let mut i: u8 = 0;
        while i < n
            invariant
                i <= n,
                old(self)@.generation + n <= usize::MAX,
                self@ == old(self)@.advance(i as nat),
            decreases n - i,
        {
            proof {
                lemma_advance_keeps_count(old(self)@, i as nat);
            }
            self.next_generation();
            i = i + 1;
        }
        proof {
            lemma_advance_keeps_count(old(self)@, n as nat);
        }
        &self.current
    }

    /// The current word.
    pub fn current_generation(&self) -> (word: &String)
        ensures
            word@ == self@.word,
    {
        &self.current
    }

    /// How often the word has been rewritten.
    pub fn generation_count(&self) -> (n: usize)
        ensures
            n == self@.generation,
    {
        self.gen
    }

    /// Draws the current word on a white canvas of the given size, with the
    /// standard rasterizer: strokes of 5 pixels for `1` and 3 pixels for `0`,
    /// branches at 45 degrees.
    pub fn draw(&self, width: u32, height: u32) -> (canvas: Canvas)
        requires
            width > 0,
            height > 0,
            3 * width * height <= isize::MAX,
            pops_covered(self@.word, 0),
        ensures
            canvas.wf(),
            canvas.width() == width,
            canvas.height() == height,
            (Rasterizer { stroke_length: 5, leaf_length: 3, branch_angle: 45 }).run(
                start(width as int, height as int),
                self@.word,
            ) matches Some(s) && s.canvas == canvas@,
    {
        Rasterizer::standard().render(self.current.as_str(), width, height)
    }
}

/// Advancing changes neither the vocabulary nor the rules, and counts the
/// generations.
pub proof fn lemma_advance_keeps_count(g: GView, n: nat)
    ensures
        g.advance(n).generation == g.generation + n,
        g.advance(n).rules == g.rules,
        g.advance(n).vocabulary == g.vocabulary,
    decreases n,
{
    if n > 0 {
        lemma_advance_keeps_count(g, (n - 1) as nat);
    }
}

/// Advancing by nothing leaves the engine as it is: the word, the rules and
/// the count of generations.
pub proof fn lemma_advance_by_nothing(g: GView)
    ensures
        g.advance(0) == g,
{
}

/// Advancing by `n + 1` is advancing by `n` and rewriting once more, and it
/// is rewriting once and then advancing by `n`: advancing by `n` is `n`
/// single generations, one after the other.
pub proof fn lemma_advance_is_repeated_step(g: GView, n: nat)
    ensures
        g.advance(n + 1) == g.advance(n).step(),
        g.advance(n + 1) == g.step().advance(n),
    decreases n,
{
    if n > 0 {
        lemma_advance_is_repeated_step(g, (n - 1) as nat);
    }
}

/// Advancing by `a` and then by `b` is advancing by `a + b`.
pub proof fn lemma_advance_add(g: GView, a: nat, b: nat)
    ensures
        g.advance(a).advance(b) == g.advance(a + b),
    decreases b,
{
    if b > 0 {
        lemma_advance_add(g, a, (b - 1) as nat);
    }
}

/// The first rule that matches a character decides what the character
/// becomes, whatever rules follow it.
pub proof fn lemma_first_match_wins(rules: Seq<Seq<char>>, c: char, k: int)
    requires
        0 <= k < rules.len(),
        matches(rules[k], c),
        forall|j: int| 0 <= j < k ==> !matches(#[trigger] rules[j], c),
    ensures
        production(rules, c) == parse_rule(rules[k]).unwrap().1,
{
    lemma_skip_unmatched(rules, c, 0, k);
}

/// A character that no rule matches stays as it is.
pub proof fn lemma_unmatched_stays(rules: Seq<Seq<char>>, c: char)
    requires
        forall|j: int| 0 <= j < rules.len() ==> !matches(#[trigger] rules[j], c),
    ensures
        production(rules, c) == seq![c],
{
    lemma_skip_unmatched(rules, c, 0, rules.len() as int);
}

/// Rules that do not match `c` are passed over.
proof fn lemma_skip_unmatched(rules: Seq<Seq<char>>, c: char, i: int, k: int)
    requires
        0 <= i <= k <= rules.len(),
        forall|j: int| i <= j < k ==> !matches(#[trigger] rules[j], c),
    ensures
        production_from(rules, c, i) == production_from(rules, c, k),
    decreases k - i,
{
    if i < k {
        lemma_skip_unmatched(rules, c, i + 1, k);
    }
}

/// Rewriting is positional: each part of a word is rewritten as if it stood
/// alone, whatever stands before or after it.
pub proof fn lemma_rewrite_concat(rules: Seq<Seq<char>>, a: Seq<char>, b: Seq<char>)
    ensures
        rewrite(rules, a + b) == rewrite(rules, a) + rewrite(rules, b),
    decreases b.len(),
{
    if b.len() == 0 {
        assert(a + b == a);
    } else {
        lemma_rewrite_concat(rules, a, b.drop_last());
        assert((a + b).drop_last() == a + b.drop_last());
    }
}

/// Whether no rule of `rules` has an empty replacement.
pub open spec fn never_erases(rules: Seq<Seq<char>>) -> bool {
    forall|i: int|
        0 <= i < rules.len() ==> (parse_rule(#[trigger] rules[i]) matches Some(r) ==> r.1.len()
            >= 1)
}

proof fn lemma_production_not_empty(rules: Seq<Seq<char>>, c: char, i: int)
    requires
        never_erases(rules),
        0 <= i,
    ensures
        production_from(rules, c, i).len() >= 1,
    decreases rules.len() - i,
{
    if i < rules.len() && !matches(rules[i], c) {
        lemma_production_not_empty(rules, c, i + 1);
    }
}

/// Where no rule has an empty replacement, rewriting never makes the word
/// shorter.
pub proof fn lemma_rewrite_never_shrinks(rules: Seq<Seq<char>>, word: Seq<char>)
    requires
        never_erases(rules),
    ensures
        rewrite(rules, word).len() >= word.len(),
    decreases word.len(),
{
    if word.len() > 0 {
        lemma_rewrite_never_shrinks(rules, word.drop_last());
        lemma_production_not_empty(rules, word.last(), 0);
    }
}

/// Where no rule has an empty replacement, the word never gets shorter from
/// one generation to a later one.
pub proof fn lemma_advance_never_shrinks(g: GView, n: nat)
    requires
        never_erases(g.rules),
    ensures
        g.advance(n).word.len() >= g.word.len(),
    decreases n,
{
    if n > 0 {
        lemma_advance_never_shrinks(g, (n - 1) as nat);
        lemma_advance_keeps_count(g, (n - 1) as nat);
        lemma_rewrite_never_shrinks(g.rules, g.advance((n - 1) as nat).word);
    }
}

proof fn lemma_production_without(rules: Seq<Seq<char>>, k: int, c: char, i: int)
    requires
        0 <= k < rules.len(),
        !matches(rules[k], c),
        0 <= i <= rules.len(),
    ensures
        production_from(rules, c, i) == production_from(
            rules.remove(k),
            c,
            if i <= k {
                i
            } else {
                i - 1
            },
        ),
    decreases rules.len() - i,
{
    let rest = rules.remove(k);
    if i < rules.len() {
        lemma_production_without(rules, k, c, i + 1);
        if i < k {
            assert(rest[i] == rules[i]);
        } else if i > k {
            assert(rest[i - 1] == rules[i]);
        }
    }
}

/// A rule text without a separator, or whose left side is blank, matches no
/// character, and the word is rewritten as if the text were not among the
/// rules.
pub proof fn lemma_malformed_rule_never_matches(rules: Seq<Seq<char>>, k: int, word: Seq<char>)
    requires
        0 <= k < rules.len(),
        !has_separator(rules[k]) || trim(left_side(rules[k])).len() == 0,
    ensures
        forall|c: char| !matches(rules[k], c),
        rewrite(rules, word) == rewrite(rules.remove(k), word),
    decreases word.len(),
{
    lemma_malformed_text_is_no_rule(rules[k]);
    if word.len() > 0 {
        lemma_malformed_rule_never_matches(rules, k, word.drop_last());
        lemma_production_without(rules, k, word.last(), 0);
    }
}

} // verus!
