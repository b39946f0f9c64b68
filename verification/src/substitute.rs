//! The substitution applier: a table of literal replacement rules with a
//! deterministic application order — longer patterns first, equal-length
//! patterns in ascending lexicographic order — applied to the document in a
//! single left-to-right, non-cascading scan.

use vstd::prelude::*;
use vstd::string::*;

verus! {

/// `pat` is a prefix of `text`.
pub open spec fn is_prefix_of(pat: Seq<char>, text: Seq<char>) -> bool {
    pat.len() <= text.len() && text.take(pat.len() as int) == pat
}

/// The first rule at or after position `j` whose pattern is a prefix of
/// `text`, if any. Because the rules are kept longest-pattern-first, the
/// first matching rule carries the longest matching pattern.
pub open spec fn first_match(
    rules: Seq<(Seq<char>, Seq<char>)>,
    text: Seq<char>,
    j: int,
) -> Option<int>
    decreases rules.len() - j,
{
    if j < 0 || j >= rules.len() {
        None
    } else if is_prefix_of(rules[j].0, text) {
        Some(j)
    } else {
        first_match(rules, text, j + 1)
    }
}

/// The result of the single left-to-right scan over `text`: at each position
/// the first (hence longest) matching pattern is replaced by its rule's
/// replacement and the scan continues after the matched characters, without
/// rescanning the replacement; at a position where no rule matches, the
/// character is kept. The scan always advances by at least one character.
pub open spec fn apply_sub(rules: Seq<(Seq<char>, Seq<char>)>, text: Seq<char>) -> Seq<char>
    decreases text.len(),
{
    if text.len() == 0 {
        Seq::empty()
    } else {
        match first_match(rules, text, 0) {
            Some(j) => {
                let raw = rules[j].0.len() as int;
                let step = if raw < 1 {
                    1
                } else if raw > text.len() {
                    text.len() as int
                } else {
                    raw
                };
                rules[j].1 + apply_sub(rules, text.skip(step))
            },
            None => seq![text[0]] + apply_sub(rules, text.skip(1)),
        }
    }
}

/// A matching rule found by `first_match` lies in range and its pattern is a
/// prefix of the text.
proof fn lemma_first_match_some(rules: Seq<(Seq<char>, Seq<char>)>, text: Seq<char>, j0: int, j: int)
    requires
        0 <= j0,
        first_match(rules, text, j0) == Some(j),
    ensures
        j0 <= j < rules.len(),
        is_prefix_of(rules[j].0, text),
    decreases rules.len() - j0,
{
    if j0 < rules.len() && !is_prefix_of(rules[j0].0, text) {
        lemma_first_match_some(rules, text, j0 + 1, j);
    }
}

/// An empty table is the identity transform: the scan keeps every
/// character of the text.
pub proof fn lemma_empty_table_identity(text: Seq<char>)
    ensures
        apply_sub(Seq::empty(), text) == text,
    decreases text.len(),
{
    if text.len() > 0 {
        lemma_empty_table_identity(text.skip(1));
        assert(seq![text[0]] + text.skip(1) =~= text);
    }
}

proof fn lemma_first_match_first(
    rules: Seq<(Seq<char>, Seq<char>)>,
    text: Seq<char>,
    j0: int,
    j: int,
    k: int,
)
    requires
        0 <= j0 <= k < j,
        first_match(rules, text, j0) == Some(j),
    ensures
        !is_prefix_of(rules[k].0, text),
    decreases k - j0,
{
    if !is_prefix_of(rules[j0].0, text) && j0 < k {
        lemma_first_match_first(rules, text, j0 + 1, j, k);
    }
}

/// On a well-formed table the scan is a longest-match scan: the rule it
/// picks at a position carries a pattern at least as long as that of every
/// rule matching there.
pub proof fn lemma_first_match_longest(
    rules: Seq<(Seq<char>, Seq<char>)>,
    text: Seq<char>,
    j: int,
    k: int,
)
    requires
        wf_rules(rules),
        first_match(rules, text, 0) == Some(j),
        0 <= k < rules.len(),
        is_prefix_of(rules[k].0, text),
    ensures
        rules[k].0.len() <= rules[j].0.len(),
{
    lemma_first_match_some(rules, text, 0, j);
    if k < j {
        lemma_first_match_first(rules, text, 0, j, k);
    } else if j < k {
        assert(rule_before(rules[j].0, rules[k].0));
    }
}

/// The set of literal replacement rules, held in the deterministic
/// application order.
pub struct SubstitutionTable {
    rules: Vec<(String, String)>,
}

/// The mathematical view of a rule list: each rule as its pattern and its
/// replacement.
pub open spec fn rules_view(rules: Seq<(String, String)>) -> Seq<(Seq<char>, Seq<char>)> {
    rules.map_values(|r: (String, String)| (r.0@, r.1@))
}

impl View for SubstitutionTable {
    type V = Seq<(Seq<char>, Seq<char>)>;

    closed spec fn view(&self) -> Seq<(Seq<char>, Seq<char>)> {
        rules_view(self.rules@)
    }
}

/// Whether `pat` occurs in `content` at position `start`.
fn matches_at(content: &str, start: usize, pat: &str) -> (matched: bool)
    requires
        start <= content@.len(),
    ensures
        matched == is_prefix_of(pat@, content@.skip(start as int)),
{
    let n = content.unicode_len();
    let plen = pat.unicode_len();
    if plen > n - start {
        return false;
    }
    let mut k: usize = 0;
    while k < plen
        invariant
            k <= plen,
            start + plen <= n,
            n == content@.len(),
            plen == pat@.len(),
            forall|m: int| 0 <= m < k ==> pat@[m] == content@[start + m],
        decreases plen - k,
    {
        let ca = content.get_char(start + k);
        let cb = pat.get_char(k);
        if ca != cb {
            proof {
                assert(content@.skip(start as int)[k as int] == content@[start + k]);
            }
            return false;
        }
        k += 1;
    }
    proof {
        assert forall|m: int| 0 <= m < plen implies content@.skip(start as int)[m] == pat@[m] by {
            assert(pat@[m] == content@[start + m]);
        }
        assert(content@.skip(start as int).take(plen as int) =~= pat@);
    }
    true
}

/// The first rule of the table whose pattern occurs at position `start`.
fn find_match(content: &str, start: usize, table: &SubstitutionTable) -> (found: Option<usize>)
    requires
        start <= content@.len(),
    ensures
        match found {
            Some(j) => j < table@.len() && first_match(table@, content@.skip(start as int), 0)
                == Some(j as int),
            None => first_match(table@, content@.skip(start as int), 0) == None::<int>,
        },
{
    let ghost suffix = content@.skip(start as int);
    let mut j: usize = 0;
    while j < table.rules.len()
        invariant
            j <= table.rules.len(),
            start <= content@.len(),
            suffix == content@.skip(start as int),
            table@.len() == table.rules@.len(),
            first_match(table@, suffix, 0) == first_match(table@, suffix, j as int),
        decreases table.rules.len() - j,
    {
        if matches_at(content, start, table.rules[j].0.as_str()) {
            proof {
                assert(table@[j as int].0 == table.rules@[j as int].0@);
            }
            return Some(j);
        }
        proof {
            assert(table@[j as int].0 == table.rules@[j as int].0@);
            assert(first_match(table@, suffix, j as int) == first_match(
                table@,
                suffix,
                j as int + 1,
            ));
        }
        j += 1;
    }
    None
}

/// Applies the substitution table to the document text: every occurrence of
/// each rule's pattern is replaced by that rule's replacement, in a single
/// left-to-right scan that picks the first — hence longest — matching
/// pattern at each position and never rescans replaced text.
pub fn apply_substitutions(content: &str, table: &SubstitutionTable) -> (result: String)
    ensures
        result@ == apply_sub(table@, content@),
{
    let n = content.unicode_len();
    let mut result = String::new();
    let mut i: usize = 0;
    proof {
        assert(content@.skip(0) =~= content@);
    }
    while i < n
        invariant
            i <= n,
            n == content@.len(),
            apply_sub(table@, content@) == result@ + apply_sub(table@, content@.skip(i as int)),
        decreases n - i,
    {
        let ghost suffix = content@.skip(i as int);
        match find_match(content, i, table) {
            Some(j) => {
                proof {
                    lemma_first_match_some(table@, suffix, 0, j as int);
                    assert(table@[j as int].0 == table.rules@[j as int].0@);
                    assert(table@[j as int].1 == table.rules@[j as int].1@);
                }
                let pat_len = table.rules[j].0.as_str().unicode_len();
                let step = if pat_len == 0 {
                    1
                } else {
                    pat_len
                };
                let ghost prev = result@;
                result.append(table.rules[j].1.as_str());
                proof {
                    let rest = apply_sub(table@, content@.skip(i as int + step as int));
                    assert(suffix.skip(step as int) =~= content@.skip(i as int + step as int));
                    assert(apply_sub(table@, suffix) == table@[j as int].1 + rest);
                    assert(prev + (table@[j as int].1 + rest) =~= (prev + table@[j as int].1)
                        + rest);
                }
                i += step;
            },
            None => {
                let piece = content.substring_char(i, i + 1);
                let ghost prev = result@;
                result.append(piece);
                proof {
                    let head = seq![content@[i as int]];
                    let rest = apply_sub(table@, content@.skip(i as int + 1));
                    assert(piece@ =~= head);
                    assert(suffix[0] == content@[i as int]);
                    assert(suffix.skip(1) =~= content@.skip(i as int + 1));
                    assert(apply_sub(table@, suffix) == head + rest);
                    assert(prev + (head + rest) =~= (prev + head) + rest);
                }
                i += 1;
            },
        }
    }
    proof {
        assert(content@.skip(n as int) =~= Seq::<char>::empty());
        assert(apply_sub(table@, Seq::<char>::empty()) == Seq::<char>::empty());
    }
    result
}

/// Strict lexicographic order on character sequences, by code point at the
/// first differing position; the empty sequence comes first.
pub open spec fn lex_lt(a: Seq<char>, b: Seq<char>) -> bool
    decreases a.len(),
{
    if b.len() == 0 {
        false
    } else if a.len() == 0 {
        true
    } else if a[0] != b[0] {
        (a[0] as int) < (b[0] as int)
    } else {
        lex_lt(a.drop_first(), b.drop_first())
    }
}

/// The deterministic application order on patterns: longer patterns first,
/// equal-length patterns in ascending lexicographic order.
pub open spec fn rule_before(a: Seq<char>, b: Seq<char>) -> bool {
    a.len() > b.len() || (a.len() == b.len() && lex_lt(a, b))
}

/// A well-formed table: every pattern is non-empty and the rules stand
/// strictly in the application order, which also makes the patterns pairwise
/// distinct.
pub open spec fn wf_rules(rules: Seq<(Seq<char>, Seq<char>)>) -> bool {
    &&& forall|i: int| 0 <= i < rules.len() ==> (#[trigger] rules[i]).0.len() >= 1
    &&& forall|i: int, j: int|
        0 <= i < j < rules.len() ==> rule_before((#[trigger] rules[i]).0, (#[trigger] rules[j]).0)
}

impl SubstitutionTable {
    /// The table's invariant: its rules stand in the application order.
    pub open spec fn wf(&self) -> bool {
        wf_rules(self@)
    }
}

proof fn lemma_lex_lt_irrefl(a: Seq<char>)
    ensures
        !lex_lt(a, a),
    decreases a.len(),
{
    if a.len() > 0 {
        lemma_lex_lt_irrefl(a.drop_first());
    }
}

proof fn lemma_lex_lt_connected(a: Seq<char>, b: Seq<char>)
    requires
        a.len() == b.len(),
        a != b,
    ensures
        lex_lt(a, b) || lex_lt(b, a),
    decreases a.len(),
{
    if a.len() == 0 {
        assert(a =~= b);
    } else if a[0] == b[0] {
        if a.drop_first() == b.drop_first() {
            assert forall|i: int| 0 <= i < a.len() implies a[i] == b[i] by {
                if i > 0 {
                    assert(a.drop_first()[i - 1] == b.drop_first()[i - 1]);
                }
            }
            assert(a =~= b);
        }
        lemma_lex_lt_connected(a.drop_first(), b.drop_first());
    }
}

proof fn lemma_lex_lt_trans(a: Seq<char>, b: Seq<char>, c: Seq<char>)
    requires
        a.len() == b.len(),
        b.len() == c.len(),
        lex_lt(a, b),
        lex_lt(b, c),
    ensures
        lex_lt(a, c),
    decreases a.len(),
{
    if a.len() > 0 {
        if a[0] == b[0] && b[0] == c[0] {
            lemma_lex_lt_trans(a.drop_first(), b.drop_first(), c.drop_first());
        }
    }
}

proof fn lemma_rule_before_irrefl(a: Seq<char>)
    ensures
        !rule_before(a, a),
{
    lemma_lex_lt_irrefl(a);
}

proof fn lemma_rule_before_connected(a: Seq<char>, b: Seq<char>)
    requires
        a != b,
    ensures
        rule_before(a, b) || rule_before(b, a),
{
    if a.len() == b.len() {
        lemma_lex_lt_connected(a, b);
    }
}

proof fn lemma_rule_before_trans(a: Seq<char>, b: Seq<char>, c: Seq<char>)
    requires
        rule_before(a, b),
        rule_before(b, c),
    ensures
        rule_before(a, c),
{
    if a.len() == b.len() && b.len() == c.len() {
        lemma_lex_lt_trans(a, b, c);
    }
}

/// The replacement map a rule list denotes: each pattern maps to its
/// replacement, a later rule overriding an earlier one with the same
/// pattern.
pub open spec fn rules_map(rules: Seq<(Seq<char>, Seq<char>)>) -> Map<Seq<char>, Seq<char>>
    decreases rules.len(),
{
    if rules.len() == 0 {
        Map::empty()
    } else {
        rules_map(rules.drop_last()).insert(rules.last().0, rules.last().1)
    }
}

/// The replacement map a sequence of table rows denotes: rows with exactly
/// two fields contribute their pair, later rows overriding earlier ones;
/// all other rows are skipped.
pub open spec fn row_pairs(rows: Seq<Seq<Seq<char>>>) -> Map<Seq<char>, Seq<char>>
    decreases rows.len(),
{
    if rows.len() == 0 {
        Map::empty()
    } else {
        let head = row_pairs(rows.drop_last());
        if rows.last().len() == 2 {
            head.insert(rows.last()[0], rows.last()[1])
        } else {
            head
        }
    }
}

/// Some row has exactly two fields and an empty first field: an invalid
/// rule that the table builder rejects.
pub open spec fn has_empty_from(rows: Seq<Seq<Seq<char>>>) -> bool {
    exists|i: int| 0 <= i < rows.len() && (#[trigger] rows[i]).len() == 2 && rows[i][0].len() == 0
}

proof fn lemma_rules_map_dom(rules: Seq<(Seq<char>, Seq<char>)>, key: Seq<char>)
    requires
        forall|i: int| 0 <= i < rules.len() ==> (#[trigger] rules[i]).0 != key,
    ensures
        !rules_map(rules).dom().contains(key),
    decreases rules.len(),
{
    if rules.len() > 0 {
        lemma_rules_map_dom(rules.drop_last(), key);
    }
}

proof fn lemma_rules_map_insert(rules: Seq<(Seq<char>, Seq<char>)>, pos: int, rule: (Seq<char>, Seq<char>))
    requires
        0 <= pos <= rules.len(),
        forall|i: int| 0 <= i < rules.len() ==> (#[trigger] rules[i]).0 != rule.0,
    ensures
        rules_map(rules.insert(pos, rule)) == rules_map(rules).insert(rule.0, rule.1),
    decreases rules.len(),
{
    if pos == rules.len() {
        assert(rules.insert(pos, rule).drop_last() =~= rules);
        assert(rules.insert(pos, rule).last() == rule);
    } else {
        let grown = rules.insert(pos, rule);
        assert(grown.drop_last() =~= rules.drop_last().insert(pos, rule));
        assert(grown.last() == rules.last());
        lemma_rules_map_insert(rules.drop_last(), pos, rule);
        assert(rules_map(grown) == rules_map(rules.drop_last()).insert(rule.0, rule.1).insert(
            rules.last().0,
            rules.last().1,
        ));
        assert(rules.last().0 != rule.0);
        assert(rules_map(rules.drop_last()).insert(rule.0, rule.1).insert(
            rules.last().0,
            rules.last().1,
        ) =~= rules_map(rules).insert(rule.0, rule.1));
    }
}

proof fn lemma_rules_map_remove(rules: Seq<(Seq<char>, Seq<char>)>, pos: int)
    requires
        0 <= pos < rules.len(),
        forall|i: int, j: int|
            0 <= i < j < rules.len() ==> (#[trigger] rules[i]).0 != (#[trigger] rules[j]).0,
    ensures
        rules_map(rules.remove(pos)) == rules_map(rules).remove(rules[pos].0),
    decreases rules.len(),
{
    if pos == rules.len() - 1 {
        assert(rules.remove(pos) =~= rules.drop_last());
        lemma_rules_map_dom(rules.drop_last(), rules[pos].0);
        assert(rules_map(rules.drop_last()) =~= rules_map(rules.drop_last()).insert(
            rules.last().0,
            rules.last().1,
        ).remove(rules[pos].0));
    } else {
        let shrunk = rules.remove(pos);
        assert(shrunk.drop_last() =~= rules.drop_last().remove(pos));
        assert(shrunk.last() == rules.last());
        lemma_rules_map_remove(rules.drop_last(), pos);
        assert(rules[pos].0 != rules.last().0);
        assert(rules_map(rules.drop_last()).remove(rules[pos].0).insert(
            rules.last().0,
            rules.last().1,
        ) =~= rules_map(rules).remove(rules[pos].0));
    }
}

/// Why a substitution table could not be built.
#[derive(Debug, PartialEq, Eq, Clone, Copy)]
pub enum SubstitutionError {
    /// A row with exactly two fields has an empty pattern.
    EmptyFrom,
    /// The table data could not be parsed.
    UnreadableTable,
}

/// Lexicographic comparison of two texts of equal character length.
fn lex_lt_exec(a: &str, b: &str) -> (lt: bool)
    requires
        a@.len() == b@.len(),
    ensures
        lt == lex_lt(a@, b@),
{
    let n = a.unicode_len();
    proof {
        assert(a@.skip(0) =~= a@);
        assert(b@.skip(0) =~= b@);
    }
    let mut k: usize = 0;
    while k < n
        invariant
            k <= n,
            n == a@.len(),
            n == b@.len(),
            lex_lt(a@, b@) == lex_lt(a@.skip(k as int), b@.skip(k as int)),
        decreases n - k,
    {
        let ca = a.get_char(k);
        let cb = b.get_char(k);
        proof {
            assert(a@.skip(k as int)[0] == a@[k as int]);
            assert(b@.skip(k as int)[0] == b@[k as int]);
        }
        if ca != cb {
            return (ca as u32) < (cb as u32);
        }
        proof {
            assert(a@.skip(k as int).drop_first() =~= a@.skip(k as int + 1));
            assert(b@.skip(k as int).drop_first() =~= b@.skip(k as int + 1));
        }
        k += 1;
    }
    proof {
        assert(b@.skip(n as int).len() == 0);
    }
    false
}

/// Whether pattern `a` comes before pattern `b` in the application order.
fn rule_before_exec(a: &str, b: &str) -> (before: bool)
    ensures
        before == rule_before(a@, b@),
{
    let alen = a.unicode_len();
    let blen = b.unicode_len();
    if alen > blen {
        true
    } else if alen < blen {
        false
    } else {
        lex_lt_exec(a, b)
    }
}

/// The position where a rule with pattern `from` belongs: the first index
/// whose pattern does not come before `from`.
fn find_insert_pos(rules: &Vec<(String, String)>, from: &String) -> (pos: usize)
    ensures
        pos <= rules@.len(),
        forall|i: int| 0 <= i < pos ==> rule_before(rules_view(rules@)[i].0, from@),
        pos < rules@.len() ==> !rule_before(rules_view(rules@)[pos as int].0, from@),
{
    let mut pos: usize = 0;
    while pos < rules.len()
        invariant
            pos <= rules@.len(),
            forall|i: int| 0 <= i < pos ==> rule_before(rules_view(rules@)[i].0, from@),
        decreases rules.len() - pos,
    {
        if !rule_before_exec(rules[pos].0.as_str(), from.as_str()) {
            return pos;
        }
        proof {
            assert(rules_view(rules@)[pos as int].0 == rules@[pos as int].0@);
        }
        pos += 1;
    }
    pos
}

/// Places one rule into the ordered rule list, replacing the rule with the
/// same pattern if there is one.
fn insert_rule(rules: &mut Vec<(String, String)>, from: String, to: String)
    requires
        wf_rules(rules_view(old(rules)@)),
        from@.len() >= 1,
    ensures
        wf_rules(rules_view(final(rules)@)),
        rules_map(rules_view(final(rules)@)) == rules_map(rules_view(old(rules)@)).insert(
            from@,
            to@,
        ),
{
    let ghost v0 = rules_view(rules@);
    let pos = find_insert_pos(rules, &from);
    let is_dup = pos < rules.len() && rules[pos].0 == from;
    let ghost vmid: Seq<(Seq<char>, Seq<char>)> = if is_dup {
        v0.remove(pos as int)
    } else {
        v0
    };
    if is_dup {
        proof {
            assert(v0[pos as int].0 == from@);
            assert forall|i: int, j: int|
                0 <= i < j < v0.len() implies (#[trigger] v0[i]).0 != (#[trigger] v0[j]).0 by {
                if v0[i].0 == v0[j].0 {
                    lemma_rule_before_irrefl(v0[i].0);
                }
            }
            lemma_rules_map_remove(v0, pos as int);
            v0.remove_ensures(pos as int);
        }
        rules.remove(pos);
        proof {
            assert(rules_view(rules@) =~= vmid);
        }
    }
    proof {
        // Where the new rule stands relative to what is left: everything
        // before `pos` comes before it, everything at or after comes after.
        assert forall|i: int| 0 <= i < vmid.len() implies {
            &&& (#[trigger] vmid[i]).0.len() >= 1
            &&& i < pos ==> rule_before(vmid[i].0, from@)
            &&& i >= pos ==> rule_before(from@, vmid[i].0)
        } by {
            if is_dup {
                v0.remove_ensures(pos as int);
                if i >= pos {
                    assert(vmid[i] == v0[i + 1]);
                    assert(rule_before(v0[pos as int].0, v0[i + 1].0));
                } else {
                    assert(vmid[i] == v0[i]);
                }
            } else {
                assert(vmid[i] == v0[i]);
                if i == pos {
                    assert(v0[pos as int].0 != from@);
                    lemma_rule_before_connected(v0[pos as int].0, from@);
                } else if i > pos {
                    assert(v0[pos as int].0 != from@);
                    lemma_rule_before_connected(v0[pos as int].0, from@);
                    lemma_rule_before_trans(from@, v0[pos as int].0, v0[i].0);
                }
            }
        }
        assert forall|i: int| 0 <= i < vmid.len() implies (#[trigger] vmid[i]).0 != from@ by {
            if vmid[i].0 == from@ {
                lemma_rule_before_irrefl(from@);
            }
        }
        lemma_rules_map_insert(vmid, pos as int, (from@, to@));
    }
    rules.insert(pos, (from, to));
    proof {
        let v1 = rules_view(rules@);
        assert(v1 =~= vmid.insert(pos as int, (from@, to@)));
        vmid.insert_ensures(pos as int, (from@, to@));
        assert forall|i: int, j: int|
            0 <= i < j < v1.len() implies rule_before(
            (#[trigger] v1[i]).0,
            (#[trigger] v1[j]).0,
        ) by {
            if j < pos {
                assert(v1[i] == vmid[i] && v1[j] == vmid[j]);
            } else if i < pos && j == pos {
                assert(v1[i] == vmid[i]);
            } else if i < pos && j > pos {
                assert(v1[i] == vmid[i] && v1[j] == vmid[j - 1]);
                if i < j - 1 {
                    assert(rule_before(vmid[i].0, vmid[j - 1].0));
                } else {
                    assert(rule_before(vmid[i].0, from@));
                    lemma_rule_before_trans(vmid[i].0, from@, vmid[j - 1].0);
                }
            } else if i == pos {
                assert(v1[j] == vmid[j - 1]);
                assert(rule_before(from@, vmid[j - 1].0));
            } else {
                assert(v1[i] == vmid[i - 1] && v1[j] == vmid[j - 1]);
            }
        }
        assert forall|i: int| 0 <= i < v1.len() implies (#[trigger] v1[i]).0.len() >= 1 by {
            if i < pos {
                assert(v1[i] == vmid[i]);
            } else if i > pos {
                assert(v1[i] == vmid[i - 1]);
            }
        }
        if is_dup {
            assert(rules_map(v1) =~= rules_map(v0).insert(from@, to@));
        }
    }
}

/// Builds the substitution table from parsed rows. A row with exactly two
/// fields contributes the rule (pattern, replacement), a later row
/// overriding an earlier one with the same pattern; any other row is
/// skipped. A two-field row with an empty pattern is invalid and rejects
/// the whole table.
pub fn build_table(rows: &Vec<Vec<String>>) -> (result: Result<
    SubstitutionTable,
    SubstitutionError,
>)
    ensures
        match result {
            Ok(table) => table.wf() && rules_map(table@) == row_pairs(rows.deep_view())
                && !has_empty_from(rows.deep_view()),
            Err(e) => e == SubstitutionError::EmptyFrom && has_empty_from(rows.deep_view()),
        },
{
    let ghost all = rows.deep_view();
    let mut rules: Vec<(String, String)> = Vec::new();
    let mut r: usize = 0;
    while r < rows.len()
        invariant
            r <= rows.len(),
            all == rows.deep_view(),
            wf_rules(rules_view(rules@)),
            rules_map(rules_view(rules@)) == row_pairs(all.take(r as int)),
            !has_empty_from(all.take(r as int)),
        decreases rows.len() - r,
    {
        let row = &rows[r];
        proof {
            assert(all[r as int] == rows@[r as int].deep_view());
            assert(all.take(r as int + 1).drop_last() =~= all.take(r as int));
            assert(all.take(r as int + 1).last() == all[r as int]);
        }
        if row.len() == 2 {
            proof {
                assert(all[r as int][0] == rows@[r as int]@[0]@);
                assert(all[r as int][1] == rows@[r as int]@[1]@);
            }
            if row[0].as_str().is_empty() {
                proof {
                    assert(all[r as int].len() == 2 && all[r as int][0].len() == 0);
                }
                return Err(SubstitutionError::EmptyFrom);
            }
            insert_rule(&mut rules, row[0].clone(), row[1].clone());
        }
        proof {
            if has_empty_from(all.take(r as int + 1)) {
                let i = choose|i: int|
                    0 <= i < all.take(r as int + 1).len() && (#[trigger] all.take(
                        r as int + 1,
                    )[i]).len() == 2 && all.take(r as int + 1)[i][0].len() == 0;
                assert(all.take(r as int + 1)[i] == all[i]);
                assert(i == r as int || has_empty_from(all.take(r as int)));
            }
        }
        r += 1;
    }
    proof {
        assert(all.take(rows.len() as int) =~= all);
    }
    Ok(SubstitutionTable { rules })
}

#[verifier::external_type_specification]
#[verifier::external_body]
pub struct ExCsvError(csv::Error);

/// The rows that the delimited-table parser yields for a byte buffer, each
/// row a sequence of text fields: parsing depends on the bytes alone.
pub uninterp spec fn csv_rows_of(data: Seq<u8>) -> Seq<Seq<Seq<char>>>;

/// Whether the delimited-table parser accepts a byte buffer: like the rows
/// themselves, the outcome of parsing a byte slice under the fixed reader
/// settings depends on the bytes alone.
pub uninterp spec fn csv_parse_ok(data: Seq<u8>) -> bool;

/// Relies on csv::ReaderBuilder and the records iterator of csv::Reader:
/// parsing a byte buffer does no I/O, so both the outcome and the rows are
/// deterministic in the bytes alone; each record is a row of text fields in
/// order (rows may differ in width); the first row is a header and yields
/// no record; a malformed buffer yields an error.
#[verifier::external_body]
fn parse_table_rows(data: &[u8]) -> (rows: Result<Vec<Vec<String>>, csv::Error>)
    ensures
        rows is Ok <==> csv_parse_ok(data@),
        rows is Ok ==> rows->Ok_0.deep_view() == csv_rows_of(data@),
{
    let mut reader = csv::ReaderBuilder::new().flexible(true).from_reader(data);
    let mut rows: Vec<Vec<String>> = Vec::new();
    for record in reader.records() {
        let record = record?;
        rows.push(record.iter().map(|field| field.to_string()).collect());
    }
    Ok(rows)
}

/// Reads the substitution table from the raw bytes of a two-column
/// delimited table file: parses the rows, then builds the table from them.
/// A buffer that cannot be parsed is rejected as unreadable, and only such
/// a buffer; a readable buffer yields a table if and only if no two-field
/// row has an empty pattern (such a row is an invalid rule); rows without
/// exactly two fields are skipped and never an error.
pub fn read_substitutions(data: &[u8]) -> (result: Result<SubstitutionTable, SubstitutionError>)
    ensures
        result is Err && result->Err_0 == SubstitutionError::UnreadableTable <==> !csv_parse_ok(
            data@,
        ),
        csv_parse_ok(data@) ==> (result is Ok <==> !has_empty_from(csv_rows_of(data@))),
        result is Ok ==> result->Ok_0.wf() && rules_map(result->Ok_0@) == row_pairs(
            csv_rows_of(data@),
        ),
        result is Err && result->Err_0 == SubstitutionError::EmptyFrom ==> csv_parse_ok(data@)
            && has_empty_from(csv_rows_of(data@)),
{
    match parse_table_rows(data) {
        Ok(rows) => build_table(&rows),
        Err(_) => Err(SubstitutionError::UnreadableTable),
    }
}

} // verus!
