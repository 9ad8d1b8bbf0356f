//! The L-system that grows the tree: a table of production rules, the
//! parallel rewriting step, and the word of the tree after a number of steps.
use std::collections::HashMap;
use vstd::arithmetic::power::pow;
use vstd::prelude::*;
use vstd::string::StringExecFns;

use crate::data::parser::DomainData;
use crate::lsystem::words::{
    balanced, count_prefix, depth, depth_prefix, lemma_balanced_concat,
    lemma_bracket_free_balanced, lemma_bracketed_balanced, lemma_depth_concat,
    lemma_depth_prefix_agree, lemma_depth_prefix_concat, lemma_depth_push,
    lemma_occurrences_concat, lemma_occurrences_push, never_below_zero, occurrences,
};
use crate::text::{push_char, string_from_chars};

verus! {


/// The key under which the production rule of a symbol is stored: its Unicode scalar value.
pub open spec fn symbol_key(c: char) -> u32 {
    c as u32
}

/// A table of production rules, from the key of a symbol to the word that replaces it.
pub struct CustomRules {
    pub rules: HashMap<u32, Vec<char>>,
}

/// The word that replaces `c` in one rewriting step: its rule, or `c` itself when it has none.
pub open spec fn successor(rules: Map<u32, Seq<char>>, c: char) -> Seq<char> {
    if rules.contains_key(symbol_key(c)) {
        rules[symbol_key(c)]
    } else {
        seq![c]
    }
}

/// One parallel rewriting step: every symbol of `w` is replaced by its successor.
pub open spec fn rewrite(rules: Map<u32, Seq<char>>, w: Seq<char>) -> Seq<char>
    decreases w.len(),
{
    if w.len() == 0 {
        seq![]
    } else {
        rewrite(rules, w.drop_last()) + successor(rules, w.last())
    }
}

/// The word reached from `start` after `n` rewriting steps.
pub open spec fn derive(rules: Map<u32, Seq<char>>, start: Seq<char>, n: nat) -> Seq<char>
    decreases n,
{
    if n == 0 {
        start
    } else {
        rewrite(rules, derive(rules, start, (n - 1) as nat))
    }
}

impl CustomRules {
    /// The rules as a map from symbol keys to successor words.
    pub open spec fn rule_map(&self) -> Map<u32, Seq<char>> {
        self.rules@.map_values(|w: Vec<char>| w@)
    }

    /// The successor word of `var`, if a rule rewrites it.
    pub fn map(&self, var: &char) -> (res: Option<Vec<char>>)
        ensures
            res is Some <==> self.rule_map().contains_key(symbol_key(*var)),
            res matches Some(w) ==> w@ == self.rule_map()[symbol_key(*var)],
            res is Some <==> self.rules@.contains_key(*var as u32),
            res matches Some(w) ==> w@ == self.rules@[*var as u32]@,
    {
        let key = *var as u32;
        match self.rules.get(&key) {
            Some(w) => {
                let copy = w.clone();
                assert(copy@ =~= w@);
                Some(copy)
            },
            None => None,
        }
    }

    /// One parallel rewriting step of `word`.
    pub fn rewrite(&self, word: &Vec<char>) -> (res: Vec<char>)
        ensures
            res@ == rewrite(self.rule_map(), word@),
    {
        let mut next: Vec<char> = Vec::new();
        for i in 0..word.len()
            invariant
                next@ == rewrite(self.rule_map(), word@.take(i as int)),
        {
            let ch = word[i];
            let ghost before = next@;
            match self.map(&ch) {
                Some(replacement) => {
                    next.extend_from_slice(replacement.as_slice());
                    assert(next@ =~= before + replacement@);
                },
                None => {
                    next.push(ch);
                },
            }
            assert(word@.take(i + 1).drop_last() =~= word@.take(i as int));
        }
        assert(word@.take(word.len() as int) =~= word@);
        next
    }
}

/// The production of the tree grammar: a trunk segment doubles and sprouts
/// three leafy side branches.
pub open spec fn tree_rule() -> Seq<char> {
    seq![
        'F', 'F', '-', '[', '-', 'F', '+', 'J', ']', '+', '[', '+', 'F', '&', 'J', ']', '/', '[',
        '^', 'F', '\\', 'J', ']',
    ]
}

/// The rules of the tree grammar: only `F` is rewritten.
pub open spec fn tree_rules() -> Map<u32, Seq<char>> {
    map![symbol_key('F') => tree_rule()]
}

/// The word of the tree after `depth` rewriting steps from the single segment `F`.
pub open spec fn tree_sequence(depth: nat) -> Seq<char> {
    derive(tree_rules(), seq!['F'], depth)
}

/// Grows the tree word: `depth` parallel rewriting steps of the tree grammar from `F`.
pub fn build_tree_sequence(depth: usize) -> (res: String)
    ensures
        res@ == tree_sequence(depth as nat),
{
    let mut rules_map: HashMap<u32, Vec<char>> = HashMap::new();
    let successor_of_f: Vec<char> = vec![
        'F', 'F', '-', '[', '-', 'F', '+', 'J', ']', '+', '[', '+', 'F', '&', 'J', ']', '/', '[',
        '^', 'F', '\\', 'J', ']',
    ];
    assert(successor_of_f@ =~= tree_rule());
    rules_map.insert('F' as u32, successor_of_f);
    let rules = CustomRules { rules: rules_map };
    assert(rules.rule_map() =~= tree_rules());
    let mut current: Vec<char> = vec!['F'];
    assert(current@ =~= seq!['F']);
    for step in 0..depth
        invariant
            rules.rule_map() == tree_rules(),
            current@ == tree_sequence(step as nat),
    {
        current = rules.rewrite(&current);
    }
    string_from_chars(&current)
}

/// Rewriting distributes over concatenation: the successor of each symbol
/// depends on that symbol alone.
pub proof fn lemma_rewrite_concat(rules: Map<u32, Seq<char>>, u: Seq<char>, v: Seq<char>)
    ensures
        rewrite(rules, u + v) == rewrite(rules, u) + rewrite(rules, v),
    decreases v.len(),
{
    if v.len() == 0 {
        assert(u + v =~= u);
        assert(rewrite(rules, u) + rewrite(rules, v) =~= rewrite(rules, u));
    } else {
        assert((u + v).drop_last() =~= u + v.drop_last());
        assert((u + v).last() == v.last());
        lemma_rewrite_concat(rules, u, v.drop_last());
        assert(rewrite(rules, u + v) =~= rewrite(rules, u) + rewrite(rules, v));
    }
}

/// What the tree production holds: no prefix closes an unopened branch, it
/// ends at depth zero, and it has five segments and three leaves.
proof fn lemma_tree_rule_facts()
    ensures
        never_below_zero(tree_rule()),
        depth(tree_rule()) == 0,
        occurrences(tree_rule(), 'F') == 5,
        occurrences(tree_rule(), 'J') == 3,
        tree_rule().len() == 23,
{
    reveal_with_fuel(depth_prefix, 24);
    reveal_with_fuel(count_prefix, 24);
    assert forall|k: int| 0 <= k <= tree_rule().len() implies #[trigger] depth_prefix(tree_rule(), k) >= 0 by {
        reveal_with_fuel(depth_prefix, 24);
    }
}

/// The successor of a symbol under the tree grammar.
proof fn lemma_tree_successor(c: char)
    ensures
        c == 'F' ==> successor(tree_rules(), c) == tree_rule(),
        c != 'F' ==> successor(tree_rules(), c) == seq![c],
{
    assert(tree_rules().contains_key(symbol_key(c)) <==> c == 'F');
}

/// One step of the tree grammar: every segment becomes five, each segment
/// adds three leaves and 22 symbols, and the bracket depth of every prefix
/// stays at or above zero while the final depth is unchanged.
pub proof fn lemma_tree_rewrite_step(w: Seq<char>)
    ensures
        occurrences(rewrite(tree_rules(), w), 'F') == 5 * occurrences(w, 'F'),
        occurrences(rewrite(tree_rules(), w), 'J') == occurrences(w, 'J') + 3 * occurrences(w, 'F'),
        rewrite(tree_rules(), w).len() == w.len() + 22 * occurrences(w, 'F'),
        depth(rewrite(tree_rules(), w)) == depth(w),
        never_below_zero(w) ==> never_below_zero(rewrite(tree_rules(), w)),
    decreases w.len(),
{
    if w.len() == 0 {
        assert(rewrite(tree_rules(), w) =~= Seq::<char>::empty());
    } else {
        let p = w.drop_last();
        let c = w.last();
        let rp = rewrite(tree_rules(), p);
        let sc = successor(tree_rules(), c);
        lemma_tree_rewrite_step(p);
        lemma_tree_successor(c);
        lemma_tree_rule_facts();
        assert(w =~= p.push(c));
        lemma_occurrences_push(p, 'F', c);
        lemma_occurrences_push(p, 'J', c);
        lemma_depth_push(p, c);
        lemma_occurrences_concat(rp, sc, 'F');
        lemma_occurrences_concat(rp, sc, 'J');
        lemma_depth_concat(rp, sc);
        if c != 'F' {
            reveal_with_fuel(depth_prefix, 2);
            reveal_with_fuel(count_prefix, 2);
        }
        if never_below_zero(w) {
            assert forall|k: int| 0 <= k <= p.len() implies #[trigger] depth_prefix(p, k) >= 0 by {
                lemma_depth_prefix_agree(w, p, k);
            }
            assert(depth_prefix(w, w.len() as int) >= 0);
            assert forall|k: int| 0 <= k <= (rp + sc).len() implies #[trigger] depth_prefix(rp + sc, k) >= 0 by {
                if k <= rp.len() {
                    lemma_depth_prefix_agree(rp + sc, rp, k);
                } else {
                    lemma_depth_prefix_concat(rp, sc, k - rp.len());
                    assert(depth_prefix(p, p.len() as int) >= 0);
                    if c != 'F' {
                        reveal_with_fuel(depth_prefix, 2);
                    } else {
                        assert(depth_prefix(tree_rule(), k - rp.len()) >= 0);
                    }
                }
            }
        }
    }
}

/// Every word the tree grammar grows is balanced: each branch that opens
/// also closes, and none closes before it opens.
pub proof fn lemma_tree_sequence_balanced(depth_steps: nat)
    ensures
        balanced(tree_sequence(depth_steps)),
    decreases depth_steps,
{
    if depth_steps == 0 {
        reveal_with_fuel(depth_prefix, 2);
        assert forall|k: int| 0 <= k <= 1 implies #[trigger] depth_prefix(seq!['F'], k) >= 0 by {
            reveal_with_fuel(depth_prefix, 2);
        }
    } else {
        lemma_tree_sequence_balanced((depth_steps - 1) as nat);
        lemma_tree_rewrite_step(tree_sequence((depth_steps - 1) as nat));
    }
}

/// After `d` steps the tree has `5^d` segments, `3 (5^d - 1) / 4` leaves and
/// `(22 * 5^d - 18) / 4` symbols.
pub proof fn lemma_tree_sequence_counts(d: nat)
    ensures
        occurrences(tree_sequence(d), 'F') == pow(5, d),
        4 * occurrences(tree_sequence(d), 'J') == 3 * (pow(5, d) - 1),
        4 * tree_sequence(d).len() == 22 * pow(5, d) - 18,
    decreases d,
{
    reveal(pow);
    if d == 0 {
        reveal_with_fuel(count_prefix, 2);
    } else {
        lemma_tree_sequence_counts((d - 1) as nat);
        lemma_tree_rewrite_step(tree_sequence((d - 1) as nat));
    }
}

/// The symbol of the decimal digit `d`.
pub open spec fn digit_char(d: nat) -> char {
    if d == 0 {
        '0'
    } else if d == 1 {
        '1'
    } else if d == 2 {
        '2'
    } else if d == 3 {
        '3'
    } else if d == 4 {
        '4'
    } else if d == 5 {
        '5'
    } else if d == 6 {
        '6'
    } else if d == 7 {
        '7'
    } else if d == 8 {
        '8'
    } else {
        '9'
    }
}

/// The decimal numeral of `n`, most significant digit first, without leading zeros.
pub open spec fn decimal(n: nat) -> Seq<char>
    decreases n,
{
    if n < 10 {
        seq![digit_char(n)]
    } else {
        decimal(n / 10).push(digit_char(n % 10))
    }
}

/// The symbol of the decimal digit `d`.
fn digit(d: usize) -> (c: char)
    requires
        d < 10,
    ensures
        c == digit_char(d as nat),
{
    match d {
        0 => '0',
        1 => '1',
        2 => '2',
        3 => '3',
        4 => '4',
        5 => '5',
        6 => '6',
        7 => '7',
        8 => '8',
        _ => '9',
    }
}

/// Appends the decimal numeral of `n` to `s`.
fn push_decimal(s: &mut String, n: usize)
    ensures
        final(s)@ == old(s)@ + decimal(n as nat),
    decreases n,
{
    let ghost start = s@;
    if n >= 10 {
        push_decimal(s, n / 10);
    }
    push_char(s, digit(n % 10));
    assert(s@ =~= start + decimal(n as nat));
}

/// The turn and leaf pattern of the side branch of the domain with position
/// `i`; six patterns, cycled.
pub open spec fn branch_rotation(i: nat) -> Seq<char> {
    let k = i % 6;
    if k == 0 {
        "&[+FJJJ-FJJJ]"@
    } else if k == 1 {
        "^[-FJJJ+FJJJ]"@
    } else if k == 2 {
        "/&[+FJJJ]"@
    } else if k == 3 {
        "\\^[+FJJJ]"@
    } else if k == 4 {
        "+&[-FJJJ]"@
    } else {
        "-^[+FJJJ]"@
    }
}

/// The pattern of the side branch of the domain with position `i`.
fn branch_rotation_str(i: usize) -> (r: &'static str)
    ensures
        r@ == branch_rotation(i as nat),
{
    match i % 6 {
        0 => "&[+FJJJ-FJJJ]",
        1 => "^[-FJJJ+FJJJ]",
        2 => "/&[+FJJJ]",
        3 => "\\^[+FJJJ]",
        4 => "+&[-FJJJ]",
        _ => "-^[+FJJJ]",
    }
}

/// The side branch of the domain with position `i`: `[D`, the position in
/// decimal, the branch pattern, `]`.
pub open spec fn domain_branch(i: nat) -> Seq<char> {
    seq!['[', 'D'] + decimal(i) + branch_rotation(i) + seq![']']
}

/// The tree word for `n` domains: a trunk of two segments `FF` and one side
/// branch per domain, in order.
pub open spec fn domain_tree_sequence(n: nat) -> Seq<char>
    decreases n,
{
    if n == 0 {
        seq!['F', 'F']
    } else {
        domain_tree_sequence((n - 1) as nat) + domain_branch((n - 1) as nat)
    }
}

/// Builds the tree word with one side branch for each of `domains`.
pub fn build_tree_sequence_from_domains(domains: &[DomainData]) -> (res: String)
    ensures
        res@ == domain_tree_sequence(domains@.len() as nat),
{
    let mut sequence = String::new();
    push_char(&mut sequence, 'F');
    push_char(&mut sequence, 'F');
    assert(sequence@ =~= seq!['F', 'F']);
    for i in 0..domains.len()
        invariant
            sequence@ == domain_tree_sequence(i as nat),
    {
        let ghost before = sequence@;
        push_char(&mut sequence, '[');
        push_char(&mut sequence, 'D');
        push_decimal(&mut sequence, i);
        sequence.append(branch_rotation_str(i));
        push_char(&mut sequence, ']');
        assert(sequence@ =~= before + domain_branch(i as nat));
    }
    sequence
}

/// Decimal numerals hold digits only, never a bracket.
proof fn lemma_decimal_digits(n: nat)
    ensures
        forall|i: int| 0 <= i < decimal(n).len() ==> #[trigger] decimal(n)[i] != '[' && decimal(n)[i] != ']',
    decreases n,
{
    if n >= 10 {
        lemma_decimal_digits(n / 10);
        assert forall|i: int| 0 <= i < decimal(n).len() implies #[trigger] decimal(n)[i] != '['
            && decimal(n)[i] != ']' by {
            if i < decimal(n / 10).len() {
                assert(decimal(n)[i] == decimal(n / 10)[i]);
            }
        }
    }
}

/// Each branch pattern is balanced.
proof fn lemma_branch_rotation_balanced(i: nat)
    ensures
        balanced(branch_rotation(i)),
{
    reveal_strlit("&[+FJJJ-FJJJ]");
    reveal_strlit("^[-FJJJ+FJJJ]");
    reveal_strlit("/&[+FJJJ]");
    reveal_strlit("\\^[+FJJJ]");
    reveal_strlit("+&[-FJJJ]");
    reveal_strlit("-^[+FJJJ]");
    let r = branch_rotation(i);
    reveal_with_fuel(depth_prefix, 14);
    assert forall|k: int| 0 <= k <= r.len() implies #[trigger] depth_prefix(r, k) >= 0 by {
        reveal_with_fuel(depth_prefix, 14);
    }
}

/// The side branch of every domain is balanced.
proof fn lemma_domain_branch_balanced(i: nat)
    ensures
        balanced(domain_branch(i)),
{
    let inner = seq!['D'] + decimal(i);
    lemma_decimal_digits(i);
    assert forall|j: int| 0 <= j < inner.len() implies #[trigger] inner[j] != '[' && inner[j] != ']' by {
        if j > 0 {
            assert(inner[j] == decimal(i)[j - 1]);
        }
    }
    lemma_bracket_free_balanced(inner);
    lemma_branch_rotation_balanced(i);
    lemma_balanced_concat(inner, branch_rotation(i));
    lemma_bracketed_balanced(inner + branch_rotation(i));
    assert(domain_branch(i) =~= seq!['['] + (inner + branch_rotation(i)) + seq![']']);
}

/// The tree word built from domains is balanced, whatever their number.
pub proof fn lemma_domain_tree_sequence_balanced(n: nat)
    ensures
        balanced(domain_tree_sequence(n)),
    decreases n,
{
    if n == 0 {
        lemma_bracket_free_balanced(seq!['F', 'F']);
    } else {
        lemma_domain_tree_sequence_balanced((n - 1) as nat);
        lemma_domain_branch_balanced((n - 1) as nat);
        lemma_balanced_concat(domain_tree_sequence((n - 1) as nat), domain_branch((n - 1) as nat));
    }
}

/// One rewriting step replaces a symbol that has a rule by exactly that
/// rule's word (the empty word erases it), and keeps a symbol without one.
pub proof fn lemma_rewrite_symbol(rules: Map<u32, Seq<char>>, c: char)
    ensures
        rules.contains_key(symbol_key(c)) ==> rewrite(rules, seq![c]) == rules[symbol_key(c)],
        !rules.contains_key(symbol_key(c)) ==> rewrite(rules, seq![c]) == seq![c],
{
    assert(seq![c].drop_last() =~= Seq::<char>::empty());
    assert(rewrite(rules, Seq::<char>::empty()) =~= Seq::<char>::empty());
    assert(Seq::<char>::empty() + successor(rules, c) =~= successor(rules, c));
}

/// The number that a string of decimal digits stands for, most significant first.
pub open spec fn numeral_value(s: Seq<char>) -> int
    decreases s.len(),
{
    if s.len() == 0 {
        0
    } else {
        numeral_value(s.drop_last()) * 10 + (s.last() as int - '0' as int)
    }
}

proof fn lemma_digit_char_value(d: nat)
    requires
        d < 10,
    ensures
        digit_char(d) as int == '0' as int + d,
{
}

/// The numeral written for `n` is made of the digits `0` to `9`, does not
/// start with a zero unless it is `0`, and reads back as `n` in base ten.
pub proof fn lemma_decimal_value(n: nat)
    ensures
        numeral_value(decimal(n)) == n,
        decimal(n).len() > 0,
        forall|i: int| 0 <= i < decimal(n).len() ==> '0' <= #[trigger] decimal(n)[i] <= '9',
        n > 0 ==> decimal(n)[0] != '0',
    decreases n,
{
    if n < 10 {
        lemma_digit_char_value(n);
        reveal_with_fuel(numeral_value, 2);
        assert(seq![digit_char(n)].drop_last() =~= Seq::<char>::empty());
    } else {
        lemma_decimal_value(n / 10);
        lemma_digit_char_value(n % 10);
        let p = decimal(n / 10);
        assert(decimal(n).drop_last() =~= p);
        assert(decimal(n)[0] == p[0]);
        assert forall|i: int| 0 <= i < decimal(n).len() implies '0' <= #[trigger] decimal(n)[i]
            <= '9' by {
            if i < p.len() {
                assert(decimal(n)[i] == p[i]);
            }
        }
    }
}

} // verus!
