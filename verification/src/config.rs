//! Rule sets: the names whose resolutions go into one pair of nftables sets.
//!
//! A rule file holds one domain name per line; blank lines and lines whose
//! first non-blank character is `#` are ignored, and so are lines that are not
//! valid names. A host name matches a rule set when one of its names is a
//! parent domain of the host name (or the name itself).

use vstd::prelude::*;
use vstd::string::StringExecFns;
use vstd::utf8::encode_utf8;
use crate::nft::error::NftError;
use crate::nft::set::{addr_bytes, batch_fits, build_setelem_batch, setelem_batch};
use crate::domain::{
    find_char, is_parsed_suffix, is_root_wire, is_subdomain, label_suffix, lemma_find_char,
    lemma_label_suffix_step, lemma_parse_ignores_case, lowercase, lemma_parse_prepend_label, lemma_parsed_nonempty, lemma_parsed_wire_shaped, label_wire, parse_fqdn, parsed_fqdn, root_wire, text_chars,
    trie_contents, trie_insert, trie_lookup, trie_new, wire_shaped, PatternTrie,
};

verus! {

/// `char::is_whitespace`: the characters with the Unicode `White_Space` property.
pub open spec fn is_white_space(c: char) -> bool {
    ||| ('\u{9}' <= c && c <= '\u{d}')
    ||| c == ' '
    ||| c == '\u{85}'
    ||| c == '\u{a0}'
    ||| c == '\u{1680}'
    ||| ('\u{2000}' <= c && c <= '\u{200a}')
    ||| c == '\u{2028}'
    ||| c == '\u{2029}'
    ||| c == '\u{202f}'
    ||| c == '\u{205f}'
    ||| c == '\u{3000}'
}

/// The text without its leading white space.
pub open spec fn trim_start(s: Seq<char>) -> Seq<char>
    decreases s.len(),
{
    if s.len() > 0 && is_white_space(s[0]) {
        trim_start(s.drop_first())
    } else {
        s
    }
}

/// The text without its trailing white space.
pub open spec fn trim_end(s: Seq<char>) -> Seq<char>
    decreases s.len(),
{
    if s.len() > 0 && is_white_space(s.last()) {
        trim_end(s.drop_last())
    } else {
        s
    }
}

/// `str::trim`: the text without leading and trailing white space.
pub open spec fn trim(s: Seq<char>) -> Seq<char> {
    trim_end(trim_start(s))
}

/// A trimmed line names a pattern unless it is empty or a comment.
pub open spec fn is_rule_line(line: Seq<char>) -> bool {
    line.len() > 0 && line[0] != '#'
}

/// The trimmed lines of a text that name patterns, in order.
pub open spec fn rule_lines(t: Seq<char>) -> Seq<Seq<char>>
    decreases t.len(),
{
    if t.len() == 0 {
        Seq::empty()
    } else {
        let j = find_char(t, '\n');
        let line = trim(t.take(j as int));
        let rest = if j < t.len() {
            rule_lines(t.skip(j + 1 as int))
        } else {
            Seq::empty()
        };
        if is_rule_line(line) {
            seq![line] + rest
        } else {
            rest
        }
    }
}

/// The names that some of the given lines parse to.
pub open spec fn lines_patterns(lines: Seq<Seq<char>>) -> Set<Seq<u8>> {
    Set::new(
        |name: Seq<u8>|
            exists|k: int| 0 <= k < lines.len() && #[trigger] parsed_fqdn(lines[k]) == Some(name),
    )
}

/// The names a rule text defines, beside the root that every trie holds.
pub open spec fn text_patterns(t: Seq<char>) -> Set<Seq<u8>> {
    lines_patterns(rule_lines(t)).insert(root_wire())
}

/// A set of names is usable for matching: it holds the root and every name in
/// it has the outline of a parsed name.
pub open spec fn patterns_wf(patterns: Set<Seq<u8>>) -> bool {
    &&& patterns.contains(root_wire())
    &&& forall|name: Seq<u8>| #[trigger] patterns.contains(name) ==> wire_shaped(name)
}

/// A host name matches a set of names when it parses and some non-root name
/// of the set is a parent domain of it (or the name itself), label by label.
/// Letter case does not count, as parsing lowercases.
pub open spec fn host_matches(patterns: Set<Seq<u8>>, host: Seq<char>) -> bool {
    match parsed_fqdn(host) {
        Some(name) => exists|parent: Seq<u8>|
            #![trigger patterns.contains(parent)]
            patterns.contains(parent) && !is_root_wire(parent) && label_suffix(name, parent),
        None => false,
    }
}

/// `r` is what `build_setelem_batch` gives for the table, the sets and the
/// addresses: the request that adds the addresses, or `ProtocolError` when a
/// length does not fit its field.
pub open spec fn request_matches(
    table: Seq<char>,
    set_v4: Seq<char>,
    set_v6: Seq<char>,
    addrs_v4: Seq<[u8; 4]>,
    addrs_v6: Seq<[u8; 16]>,
    r: Result<Vec<u8>, NftError>,
) -> bool {
    let fits = batch_fits(
        encode_utf8(table).len(),
        encode_utf8(set_v4).len(),
        encode_utf8(set_v6).len(),
        addrs_v4.len(),
        addrs_v6.len(),
    );
    match r {
        Ok(msg) => fits && msg@ == setelem_batch(
            encode_utf8(table),
            encode_utf8(set_v4),
            encode_utf8(set_v6),
            addr_bytes(addrs_v4),
            addr_bytes(addrs_v6),
        ),
        Err(e) => !fits && e == NftError::ProtocolError,
    }
}

/// The names of one rule file, with the nftables table and sets they feed.
pub struct RuleSet {
    pub table_name: String,
    pub set_name_v4: String,
    pub set_name_v6: String,
    pub patterns: PatternTrie,
}

impl RuleSet {
    /// The wire forms of the names this rule set holds (the root among them).
    pub open spec fn patterns(&self) -> Set<Seq<u8>> {
        trie_contents(self.patterns)
    }

    /// The nftables table the rule set feeds.
    pub open spec fn table(&self) -> Seq<char> {
        self.table_name@
    }

    /// The nftables set that takes IPv4 addresses.
    pub open spec fn set_v4(&self) -> Seq<char> {
        self.set_name_v4@
    }

    /// The nftables set that takes IPv6 addresses.
    pub open spec fn set_v6(&self) -> Seq<char> {
        self.set_name_v6@
    }

    /// Well-formedness: what every rule set built by `from_text` satisfies.
    pub open spec fn wf(&self) -> bool {
        patterns_wf(self.patterns())
    }
}


// ---------------------------------------------------------------------------
// Lemmas about lines and trimming
// ---------------------------------------------------------------------------

proof fn lemma_trim_start(s: Seq<char>, k: int)
    requires
        0 <= k <= s.len(),
        forall|i: int| 0 <= i < k ==> is_white_space(#[trigger] s[i]),
        k == s.len() || !is_white_space(s[k]),
    ensures
        trim_start(s) == s.skip(k),
    decreases k,
{
    if k == 0 {
        assert(s.skip(0) =~= s);
    } else {
        let r = s.drop_first();
        assert forall|i: int| 0 <= i < k - 1 implies is_white_space(#[trigger] r[i]) by {
            assert(r[i] == s[i + 1]);
        }
        if k - 1 < r.len() {
            assert(r[k - 1] == s[k]);
        }
        lemma_trim_start(r, k - 1);
        assert(r.skip(k - 1) =~= s.skip(k));
    }
}

proof fn lemma_trim_end(s: Seq<char>, k: int)
    requires
        0 <= k <= s.len(),
        forall|i: int| k <= i < s.len() ==> is_white_space(#[trigger] s[i]),
        k == 0 || !is_white_space(s[k - 1]),
    ensures
        trim_end(s) == s.take(k),
    decreases s.len() - k,
{
    if k == s.len() {
        assert(s.take(k) =~= s);
    } else {
        let r = s.drop_last();
        assert forall|i: int| k <= i < r.len() implies is_white_space(#[trigger] r[i]) by {
            assert(r[i] == s[i]);
        }
        if k > 0 {
            assert(r[k - 1] == s[k - 1]);
        }
        lemma_trim_end(r, k);
        assert(r.take(k) =~= s.take(k));
    }
}

proof fn lemma_lines_patterns_push(lines: Seq<Seq<char>>, line: Seq<char>)
    ensures
        lines_patterns(lines.push(line)) == match parsed_fqdn(line) {
            Some(name) => lines_patterns(lines).insert(name),
            None => lines_patterns(lines),
        },
{
    let longer = lines.push(line);
    let expected = match parsed_fqdn(line) {
        Some(name) => lines_patterns(lines).insert(name),
        None => lines_patterns(lines),
    };
    assert forall|name: Seq<u8>| lines_patterns(longer).contains(name) implies expected.contains(
        name,
    ) by {
        let k = choose|k: int| 0 <= k < longer.len() && #[trigger] parsed_fqdn(longer[k]) == Some(name);
        if k < lines.len() {
            assert(longer[k] == lines[k]);
            assert(lines_patterns(lines).contains(name));
        }
    }
    assert forall|name: Seq<u8>| expected.contains(name) implies lines_patterns(longer).contains(
        name,
    ) by {
        if lines_patterns(lines).contains(name) {
            let k = choose|k: int| 0 <= k < lines.len() && #[trigger] parsed_fqdn(lines[k]) == Some(name);
            assert(longer[k] == lines[k]);
        } else {
            assert(longer[lines.len() as int] == line);
        }
    }
    assert(lines_patterns(longer) =~= expected);
}

// ---------------------------------------------------------------------------
// Laws
// ---------------------------------------------------------------------------

/// A host name matches the patterns of a rule text exactly when it is a valid
/// name and one of the text's rule lines parses to a non-root name that is a
/// parent domain of it (or the name itself).
pub proof fn law_matching_by_rule_lines(text: Seq<char>, host: Seq<char>)
    ensures
        host_matches(text_patterns(text), host) <==> (match parsed_fqdn(host) {
            Some(name) => exists|k: int|
                0 <= k < rule_lines(text).len() && (#[trigger] parsed_fqdn(rule_lines(text)[k]) matches Some(
                    parent,
                ) && !is_root_wire(parent) && label_suffix(name, parent)),
            None => false,
        }),
{
    let lines = rule_lines(text);
    let p = text_patterns(text);
    if let Some(name) = parsed_fqdn(host) {
        if host_matches(p, host) {
            let parent = choose|parent: Seq<u8>|
                #![trigger p.contains(parent)]
                p.contains(parent) && !is_root_wire(parent) && label_suffix(name, parent);
            assert(parent != root_wire());
            assert(lines_patterns(lines).contains(parent));
            let k = choose|k: int| 0 <= k < lines.len() && #[trigger] parsed_fqdn(lines[k]) == Some(parent);
            assert(parsed_fqdn(lines[k]) matches Some(parent) && !is_root_wire(parent) && label_suffix(name, parent));
        }
        if exists|k: int|
            0 <= k < lines.len() && (#[trigger] parsed_fqdn(lines[k]) matches Some(parent)
                && !is_root_wire(parent) && label_suffix(name, parent)) {
            let k = choose|k: int|
                0 <= k < lines.len() && (#[trigger] parsed_fqdn(lines[k]) matches Some(parent)
                    && !is_root_wire(parent) && label_suffix(name, parent));
            let parent = parsed_fqdn(lines[k])->0;
            assert(lines_patterns(lines).contains(parent));
            assert(p.contains(parent));
        }
    }
}

/// A match carries over to subdomains: when a host name matches, so does
/// every valid name made of one more label in front of it (`www.google.com`
/// matches whatever `google.com` matches).
pub proof fn law_matching_inherited_by_subdomains(
    patterns: Set<Seq<u8>>,
    host: Seq<char>,
    label: Seq<char>,
)
    requires
        host_matches(patterns, host),
        label.len() > 0,
        forall|k: int| 0 <= k < label.len() ==> label[k] != '.',
        parsed_fqdn(label + seq!['.'] + host) is Some,
    ensures
        host_matches(patterns, label + seq!['.'] + host),
{
    lemma_parse_prepend_label(label, host);
    let h = parsed_fqdn(host)->0;
    let lw = label_wire(label)->0;
    let child = lw + h;
    lemma_parsed_nonempty(host);
    let parent = choose|parent: Seq<u8>|
        #![trigger patterns.contains(parent)]
        patterns.contains(parent) && !is_root_wire(parent) && label_suffix(h, parent);
    if child != parent {
        assert(child[0] == lw[0]);
        assert(lw[0] == label.len() as u8);
        assert(child.skip(child[0] + 1) =~= h);
    }
    assert(label_suffix(child, parent));
}

/// Matching ignores letter case: two host names that differ only in the case
/// of ASCII letters match the same patterns.
pub proof fn law_matching_ignores_case(patterns: Set<Seq<u8>>, host: Seq<char>, other: Seq<char>)
    requires
        lowercase(host) == lowercase(other),
    ensures
        host_matches(patterns, host) == host_matches(patterns, other),
{
    lemma_parse_ignores_case(host);
    lemma_parse_ignores_case(other);
}

/// The patterns of a rule text depend only on which trimmed rule lines it
/// has: reordering its lines, repeating them, or adding or removing blank
/// lines and comments changes nothing.
pub proof fn law_patterns_depend_on_rule_lines_only(t1: Seq<char>, t2: Seq<char>)
    requires
        forall|line: Seq<char>| rule_lines(t1).contains(line) <==> rule_lines(t2).contains(line),
    ensures
        text_patterns(t1) == text_patterns(t2),
{
    let l1 = rule_lines(t1);
    let l2 = rule_lines(t2);
    assert forall|name: Seq<u8>| lines_patterns(l1).contains(name) implies lines_patterns(
        l2,
    ).contains(name) by {
        let k = choose|k: int| 0 <= k < l1.len() && #[trigger] parsed_fqdn(l1[k]) == Some(name);
        assert(l1.contains(l1[k]));
        assert(l2.contains(l1[k]));
        let m = choose|m: int| 0 <= m < l2.len() && l2[m] == l1[k];
        assert(parsed_fqdn(l2[m]) == Some(name));
    }
    assert forall|name: Seq<u8>| lines_patterns(l2).contains(name) implies lines_patterns(
        l1,
    ).contains(name) by {
        let k = choose|k: int| 0 <= k < l2.len() && #[trigger] parsed_fqdn(l2[k]) == Some(name);
        assert(l2.contains(l2[k]));
        assert(l1.contains(l2[k]));
        let m = choose|m: int| 0 <= m < l1.len() && l1[m] == l2[k];
        assert(parsed_fqdn(l1[m]) == Some(name));
    }
    assert(lines_patterns(l1) =~= lines_patterns(l2));
}

proof fn lemma_trim_start_skips_white(pre: Seq<char>, x: Seq<char>)
    requires
        forall|k: int| 0 <= k < pre.len() ==> #[trigger] is_white_space(pre[k]),
    ensures
        trim_start(pre + x) == trim_start(x),
    decreases pre.len(),
{
    if pre.len() > 0 {
        assert((pre + x)[0] == pre[0]);
        assert((pre + x).drop_first() =~= pre.drop_first() + x);
        assert forall|k: int| 0 <= k < pre.drop_first().len() implies #[trigger] is_white_space(
            pre.drop_first()[k],
        ) by {
            assert(pre.drop_first()[k] == pre[k + 1]);
        }
        lemma_trim_start_skips_white(pre.drop_first(), x);
    } else {
        assert(pre + x =~= x);
    }
}

proof fn lemma_trim_end_skips_white(x: Seq<char>, post: Seq<char>)
    requires
        forall|k: int| 0 <= k < post.len() ==> #[trigger] is_white_space(post[k]),
    ensures
        trim_end(x + post) == trim_end(x),
    decreases post.len(),
{
    if post.len() > 0 {
        assert((x + post).last() == post.last());
        assert((x + post).drop_last() =~= x + post.drop_last());
        assert forall|k: int| 0 <= k < post.drop_last().len() implies #[trigger] is_white_space(
            post.drop_last()[k],
        ) by {
            assert(post.drop_last()[k] == post[k]);
        }
        lemma_trim_end_skips_white(x, post.drop_last());
    } else {
        assert(x + post =~= x);
    }
}

proof fn lemma_trim_ignores_trailing_white(x: Seq<char>, post: Seq<char>)
    requires
        forall|k: int| 0 <= k < post.len() ==> #[trigger] is_white_space(post[k]),
    ensures
        trim(x + post) == trim(x),
    decreases x.len(),
{
    if x.len() == 0 {
        assert(x + post =~= post);
        lemma_trim_start(post, post.len() as int);
        assert(post.skip(post.len() as int) =~= x);
    } else if is_white_space(x[0]) {
        assert((x + post)[0] == x[0]);
        assert((x + post).drop_first() =~= x.drop_first() + post);
        lemma_trim_ignores_trailing_white(x.drop_first(), post);
    } else {
        assert((x + post)[0] == x[0]);
        lemma_trim_end_skips_white(x, post);
    }
}

/// White space around a line does not change what it adds to a rule text.
pub proof fn law_surrounding_white_space_ignored(
    pre: Seq<char>,
    line: Seq<char>,
    post: Seq<char>,
    rest: Seq<char>,
)
    requires
        forall|k: int| 0 <= k < pre.len() ==> pre[k] != '\n' && #[trigger] is_white_space(pre[k]),
        forall|k: int| 0 <= k < post.len() ==> post[k] != '\n' && #[trigger] is_white_space(post[k]),
        forall|k: int| 0 <= k < line.len() ==> line[k] != '\n',
    ensures
        text_patterns(pre + line + post + seq!['\n'] + rest) == text_patterns(line + seq!['\n'] + rest),
{
    let padded = pre + line + post;
    assert forall|k: int| 0 <= k < padded.len() implies padded[k] != '\n' by {
        if k < pre.len() {
            assert(padded[k] == pre[k]);
            assert(is_white_space(pre[k]));
        } else if k < pre.len() + line.len() {
            assert(padded[k] == line[k - pre.len()]);
        } else {
            assert(padded[k] == post[k - pre.len() - line.len()]);
            assert(is_white_space(post[k - pre.len() - line.len()]));
        }
    }
    assert(padded =~= pre + (line + post));
    lemma_trim_start_skips_white(pre, line + post);
    lemma_trim_ignores_trailing_white(line, post);
    assert(trim(padded) == trim(line));
    law_line_contribution(padded, rest);
    law_line_contribution(line, rest);
}

/// A line of a rule text adds the name it parses to, once trimmed, when it is
/// neither blank nor a comment; otherwise it adds nothing.
pub proof fn law_line_contribution(line: Seq<char>, rest: Seq<char>)
    requires
        forall|k: int| 0 <= k < line.len() ==> line[k] != '\n',
    ensures
        text_patterns(line + seq!['\n'] + rest) == (if is_rule_line(trim(line)) && parsed_fqdn(
            trim(line),
        ) is Some {
            text_patterns(rest).insert(parsed_fqdn(trim(line))->0)
        } else {
            text_patterns(rest)
        }),
{
    let t = line + seq!['\n'] + rest;
    assert forall|k: int| 0 <= k < line.len() implies t[k] != '\n' by {
        assert(t[k] == line[k]);
    }
    assert(t[line.len() as int] == '\n');
    lemma_find_char(t, '\n', line.len() as int);
    assert(t.take(line.len() as int) =~= line);
    assert(t.skip(line.len() + 1 as int) =~= rest);
    let tl = trim(line);
    let lines = rule_lines(rest);
    if is_rule_line(tl) {
        assert(rule_lines(t) == seq![tl] + lines);
        lemma_lines_patterns_prepend(tl, lines);
        if parsed_fqdn(tl) is Some {
            let added = parsed_fqdn(tl)->0;
            assert(lines_patterns(rule_lines(t)) == lines_patterns(lines).insert(added));
            assert(text_patterns(t) =~= text_patterns(rest).insert(added));
        } else {
            assert(lines_patterns(rule_lines(t)) == lines_patterns(lines));
        }
    } else {
        assert(rule_lines(t) == lines);
    }
}

proof fn lemma_lines_patterns_prepend(line: Seq<char>, lines: Seq<Seq<char>>)
    ensures
        lines_patterns(seq![line] + lines) == match parsed_fqdn(line) {
            Some(name) => lines_patterns(lines).insert(name),
            None => lines_patterns(lines),
        },
{
    let all = seq![line] + lines;
    let expected = match parsed_fqdn(line) {
        Some(name) => lines_patterns(lines).insert(name),
        None => lines_patterns(lines),
    };
    assert forall|name: Seq<u8>| lines_patterns(all).contains(name) implies expected.contains(
        name,
    ) by {
        let k = choose|k: int| 0 <= k < all.len() && #[trigger] parsed_fqdn(all[k]) == Some(name);
        if k > 0 {
            assert(all[k] == lines[k - 1]);
            assert(lines_patterns(lines).contains(name));
        } else {
            assert(all[0] == line);
        }
    }
    assert forall|name: Seq<u8>| expected.contains(name) implies lines_patterns(all).contains(
        name,
    ) by {
        if lines_patterns(lines).contains(name) {
            let k = choose|k: int| 0 <= k < lines.len() && #[trigger] parsed_fqdn(lines[k]) == Some(name);
            assert(all[k + 1] == lines[k]);
        } else {
            assert(all[0] == line);
        }
    }
    assert(lines_patterns(all) =~= expected);
}

proof fn lemma_trim_end_keeps_first(s: Seq<char>)
    requires
        s.len() > 0,
        !is_white_space(s[0]),
    ensures
        trim_end(s).len() > 0,
        trim_end(s)[0] == s[0],
    decreases s.len(),
{
    if is_white_space(s.last()) {
        assert(s.len() > 1);
        assert(s.drop_last()[0] == s[0]);
        lemma_trim_end_keeps_first(s.drop_last());
    }
}

proof fn lemma_rule_lines_split(pre: Seq<char>, t: Seq<char>)
    requires
        pre.len() == 0 || pre.last() == '\n',
    ensures
        rule_lines(pre + t) == rule_lines(pre) + rule_lines(t),
    decreases pre.len(),
{
    if pre.len() == 0 {
        assert(pre + t =~= t);
        assert(rule_lines(pre) =~= Seq::<Seq<char>>::empty());
        assert(rule_lines(pre) + rule_lines(t) =~= rule_lines(t));
    } else {
        let whole = pre + t;
        let j = find_char(pre, '\n') as int;
        lemma_find_char_found(pre, '\n', pre.len() - 1);
        assert forall|k: int| 0 <= k < j implies whole[k] != '\n' by {
            assert(whole[k] == pre[k]);
        }
        assert(whole[j] == pre[j]);
        lemma_find_char(whole, '\n', j);
        assert(whole.take(j) =~= pre.take(j));
        let rest = pre.skip(j + 1);
        assert(whole.skip(j + 1) =~= rest + t);
        if rest.len() > 0 {
            assert(rest.last() == pre.last());
        }
        lemma_rule_lines_split(rest, t);
        let line = trim(pre.take(j));
        if is_rule_line(line) {
            assert(rule_lines(whole) =~= rule_lines(pre) + rule_lines(t));
        } else {
            assert(rule_lines(whole) =~= rule_lines(pre) + rule_lines(t));
        }
    }
}

proof fn lemma_find_char_found(s: Seq<char>, c: char, i: int)
    requires
        0 <= i < s.len(),
        s[i] == c,
    ensures
        find_char(s, c) <= i,
        s[find_char(s, c) as int] == c,
        forall|k: int| 0 <= k < find_char(s, c) ==> s[k] != c,
    decreases s.len(),
{
    if s[0] != c {
        let r = s.drop_first();
        assert(r[i - 1] == s[i]);
        lemma_find_char_found(r, c, i - 1);
        assert forall|k: int| 0 <= k < find_char(s, c) implies s[k] != c by {
            if k > 0 {
                assert(s[k] == r[k - 1]);
            }
        }
    }
}

proof fn lemma_trim_empty()
    ensures
        trim(Seq::<char>::empty()) == Seq::<char>::empty(),
{
    assert(trim_start(Seq::<char>::empty()) == Seq::<char>::empty());
    assert(trim_end(Seq::<char>::empty()) == Seq::<char>::empty());
}

/// Every line of a rule text that is neither blank nor a comment once
/// trimmed, and parses as a name, puts that name among the text's patterns,
/// wherever the line stands and whatever characters it starts with.
pub proof fn law_every_valid_line_is_a_pattern(pre: Seq<char>, line: Seq<char>, post: Seq<char>)
    requires
        pre.len() == 0 || pre.last() == '\n',
        post.len() == 0 || post[0] == '\n',
        forall|k: int| 0 <= k < line.len() ==> line[k] != '\n',
        trim(line).len() > 0,
        trim(line)[0] != '#',
        parsed_fqdn(trim(line)) is Some,
    ensures
        text_patterns(pre + line + post).contains(parsed_fqdn(trim(line))->0),
{
    let tl = trim(line);
    let t = line + post;
    if line.len() == 0 {
        lemma_trim_empty();
        assert(line =~= Seq::<char>::empty());
    }
    assert forall|k: int| 0 <= k < line.len() implies t[k] != '\n' by {
        assert(t[k] == line[k]);
    }
    if post.len() > 0 {
        assert(t[line.len() as int] == '\n');
    }
    lemma_find_char(t, '\n', line.len() as int);
    assert(t.take(line.len() as int) =~= line);
    assert(rule_lines(t)[0] == tl);
    assert(pre + line + post =~= pre + t);
    lemma_rule_lines_split(pre, t);
    let all = rule_lines(pre + t);
    let k = rule_lines(pre).len() as int;
    assert(all[k] == tl);
    assert(lines_patterns(all).contains(parsed_fqdn(tl)->0));
}

/// A comment line (one starting with `#`) adds nothing to a rule text.
pub proof fn law_comment_line_ignored(comment: Seq<char>, rest: Seq<char>)
    requires
        forall|k: int| 0 <= k < comment.len() ==> comment[k] != '\n',
    ensures
        text_patterns(seq!['#'] + comment + seq!['\n'] + rest) == text_patterns(rest),
{
    let line = seq!['#'] + comment;
    assert forall|k: int| 0 <= k < line.len() implies line[k] != '\n' by {
        if k > 0 {
            assert(line[k] == comment[k - 1]);
        }
    }
    assert(trim_start(line) == line);
    lemma_trim_end_keeps_first(line);
    assert(!is_rule_line(trim(line)));
    law_line_contribution(line, rest);
}

/// A line of white space adds nothing to a rule text.
pub proof fn law_blank_line_ignored(blank: Seq<char>, rest: Seq<char>)
    requires
        forall|k: int| 0 <= k < blank.len() ==> blank[k] != '\n' && is_white_space(blank[k]),
    ensures
        text_patterns(blank + seq!['\n'] + rest) == text_patterns(rest),
{
    lemma_trim_start(blank, blank.len() as int);
    assert(blank.skip(blank.len() as int) =~= Seq::<char>::empty());
    assert(trim(blank) =~= Seq::<char>::empty());
    law_line_contribution(blank, rest);
}

// ---------------------------------------------------------------------------
// Executable code
// ---------------------------------------------------------------------------

fn is_white_space_char(c: char) -> (r: bool)
    ensures
        r == is_white_space(c),
{
    ('\u{9}' <= c && c <= '\u{d}') || c == ' ' || c == '\u{85}' || c == '\u{a0}' || c == '\u{1680}'
        || ('\u{2000}' <= c && c <= '\u{200a}') || c == '\u{2028}' || c == '\u{2029}' || c
        == '\u{202f}' || c == '\u{205f}' || c == '\u{3000}'
}

/// Copies `chars[lo..hi]`.
fn copy_range(chars: &Vec<char>, lo: usize, hi: usize) -> (part: Vec<char>)
    requires
        lo <= hi <= chars.len(),
    ensures
        part@ == chars@.subrange(lo as int, hi as int),
{
    let mut part: Vec<char> = Vec::new();
    let mut k = lo;
    while k < hi
        invariant
            lo <= k <= hi <= chars.len(),
            part@ == chars@.subrange(lo as int, k as int),
        decreases hi - k,
    {
        part.push(chars[k]);
        k = k + 1;
        assert(part@ =~= chars@.subrange(lo as int, k as int));
    }
    part
}

/// The trimmed lines of a rule text that name patterns (neither blank nor
/// comments), in order.
pub fn split_rule_lines(text: &str) -> (lines: Vec<Vec<char>>)
    ensures
        lines@.len() == rule_lines(text@).len(),
        forall|k: int| 0 <= k < lines@.len() ==> #[trigger] lines@[k]@ == rule_lines(text@)[k],
{
        let chars = text_chars(text);
        let ghost t = text@;
        let n = chars.len();
        let mut lines: Vec<Vec<char>> = Vec::new();
        let ghost mut done: Seq<Seq<char>> = Seq::empty();
        let mut i: usize = 0;
        assert(t.skip(0) =~= t);
        loop
            invariant_except_break
                done + rule_lines(t.skip(i as int)) == rule_lines(t),
            invariant
                chars@ == t,
                n == t.len(),
                0 <= i <= n,
                lines@.len() == done.len(),
                forall|k: int| 0 <= k < done.len() ==> #[trigger] lines@[k]@ == done[k],
            ensures
                done == rule_lines(t),
                lines@.len() == done.len(),
                forall|k: int| 0 <= k < done.len() ==> #[trigger] lines@[k]@ == done[k],
            decreases n - i,
        {
            let ghost s = t.skip(i as int);
            // find the end of the current line
            let mut j = i;
            while j < n && chars[j] != '\n'
                invariant
                    chars@ == t,
                    n == t.len(),
                    i <= j <= n,
                    forall|k: int| i <= k < j ==> t[k] != '\n',
                decreases n - j,
            {
                j = j + 1;
            }
            proof {
                assert forall|k: int| 0 <= k < j - i implies s[k] != '\n' by {
                    assert(s[k] == t[i + k]);
                }
                if j < n {
                    assert(s[j - i] == t[j as int]);
                }
                lemma_find_char(s, '\n', j - i);
            }
            // trim it
            let mut lo = i;
            while lo < j && is_white_space_char(chars[lo])
                invariant
                    chars@ == t,
                    n == t.len(),
                    i <= lo <= j <= n,
                    forall|k: int| i <= k < lo ==> is_white_space(#[trigger] t[k]),
                decreases j - lo,
            {
                lo = lo + 1;
            }
            let mut hi = j;
            while hi > lo && is_white_space_char(chars[hi - 1])
                invariant
                    chars@ == t,
                    n == t.len(),
                    i <= lo <= hi <= j <= n,
                    forall|k: int| hi <= k < j ==> is_white_space(#[trigger] t[k]),
                decreases hi - lo,
            {
                hi = hi - 1;
            }
            let ghost seg = t.subrange(i as int, j as int);
            let ghost line = t.subrange(lo as int, hi as int);
            proof {
                assert forall|k: int| 0 <= k < lo - i implies is_white_space(#[trigger] seg[k]) by {
                    assert(seg[k] == t[i + k]);
                }
                if lo < j {
                    assert(seg[lo - i] == t[lo as int]);
                }
                lemma_trim_start(seg, lo - i);
                let ts = seg.skip(lo - i);
                assert(ts =~= t.subrange(lo as int, j as int));
                assert forall|k: int| hi - lo <= k < ts.len() implies is_white_space(#[trigger] ts[k]) by {
                    assert(ts[k] == t[lo + k]);
                }
                if hi > lo {
                    assert(ts[hi - lo - 1] == t[hi - 1]);
                }
                lemma_trim_end(ts, hi - lo);
                assert(ts.take(hi - lo) =~= line);
                assert(s.take(j - i) =~= seg);
            }
            let is_rule = lo < hi && chars[lo] != '#';
            proof {
                if lo < hi {
                    assert(line[0] == t[lo as int]);
                }
                assert(is_rule == is_rule_line(line));
            }
            if is_rule {
                let part = copy_range(&chars, lo, hi);
                assert(part@ == line);
                lines.push(part);
                proof {
                    done = done.push(line);
                }
            }
            if j == n {
                proof {
                    if s.len() > 0 {
                        assert(rule_lines(s) == (if is_rule_line(line) {
                            seq![line]
                        } else {
                            Seq::<Seq<char>>::empty()
                        }) + Seq::<Seq<char>>::empty());
                    }
                    assert(rule_lines(s) =~= (if is_rule_line(line) {
                        seq![line]
                    } else {
                        Seq::<Seq<char>>::empty()
                    }));
                    assert(done =~= rule_lines(t));
                }
                break;
            }
            proof {
                assert(s.skip(j - i + 1) =~= t.skip(j + 1));
                let rest = rule_lines(t.skip(j + 1));
                if is_rule_line(line) {
                    assert(rule_lines(s) == seq![line] + rest);
                    assert(done + rest =~= (done.drop_last() + (seq![line] + rest)));
                } else {
                    assert(rule_lines(s) == rest);
                }
            }
            i = j + 1;
        }
        lines
}

/// The lines that did not parse, in order.
pub open spec fn unparsed_lines(lines: Seq<Seq<char>>) -> Seq<Seq<char>>
    decreases lines.len(),
{
    if lines.len() == 0 {
        Seq::empty()
    } else {
        let rest = unparsed_lines(lines.drop_last());
        if parsed_fqdn(lines.last()) is None {
            rest.push(lines.last())
        } else {
            rest
        }
    }
}

/// The rule lines of a text that are not valid domain names, in order: the
/// lines `from_text` skips although they are neither blank nor comments.
pub fn invalid_rule_lines(text: &str) -> (invalid: Vec<Vec<char>>)
    ensures
        invalid@.len() == unparsed_lines(rule_lines(text@)).len(),
        forall|k: int|
            0 <= k < invalid@.len() ==> #[trigger] invalid@[k]@ == unparsed_lines(
                rule_lines(text@),
            )[k],
{
    let lines = split_rule_lines(text);
    let ghost all = rule_lines(text@);
    let mut invalid: Vec<Vec<char>> = Vec::new();
    let mut k: usize = 0;
    assert(all.take(0) =~= Seq::<Seq<char>>::empty());
    while k < lines.len()
        invariant
            0 <= k <= lines.len(),
            lines@.len() == all.len(),
            forall|i: int| 0 <= i < lines@.len() ==> #[trigger] lines@[i]@ == all[i],
            invalid@.len() == unparsed_lines(all.take(k as int)).len(),
            forall|i: int|
                0 <= i < invalid@.len() ==> #[trigger] invalid@[i]@ == unparsed_lines(
                    all.take(k as int),
                )[i],
        decreases lines.len() - k,
    {
        let ghost before = unparsed_lines(all.take(k as int));
        assert(all.take(k + 1).drop_last() =~= all.take(k as int));
        assert(all.take(k + 1).last() == all[k as int]);
        assert(lines@[k as int]@ == all[k as int]);
        if parse_fqdn(lines[k].as_slice()).is_none() {
            let line = copy_chars(&lines[k]);
            let ghost prev = invalid@;
            invalid.push(line);
            assert(unparsed_lines(all.take(k + 1)) == before.push(all[k as int]));
            assert forall|i: int| 0 <= i < invalid@.len() implies #[trigger] invalid@[i]@
                == unparsed_lines(all.take(k + 1))[i] by {
                if i < before.len() {
                    assert(invalid@[i] == prev[i]);
                }
            }
        }
        k = k + 1;
    }
    assert(all.take(lines.len() as int) =~= all);
    invalid
}

/// Whether a text is a valid domain name.
pub fn is_domain_name(text: &str) -> (valid: bool)
    ensures
        valid == (parsed_fqdn(text@) is Some),
{
    let chars = text_chars(text);
    parse_fqdn(chars.as_slice()).is_some()
}

/// Copies characters.
fn copy_chars(chars: &Vec<char>) -> (copy: Vec<char>)
    ensures
        copy@ == chars@,
{
    copy_range(chars, 0, chars.len())
}

impl RuleSet {
    /// Builds the rule set of one rule file from its text.
    ///
    /// Every line is trimmed; blank lines, lines starting with `#` and lines
    /// that are not valid domain names are skipped, and the others are added
    /// as patterns. The sets fed are `<set_name>_v4` and `<set_name>_v6` of
    /// table `table_name`.
    pub fn from_text(table_name: &str, set_name: &str, text: &str) -> (r: RuleSet)
        ensures
            r.table() == table_name@,
            r.set_v4() == set_name@ + "_v4"@,
            r.set_v6() == set_name@ + "_v6"@,
            r.patterns() == text_patterns(text@),
            r.wf(),
    {
        let lines = split_rule_lines(text);
        let ghost all = rule_lines(text@);
        let mut trie = trie_new();
        let mut k: usize = 0;
        assert(all.take(0) =~= Seq::<Seq<char>>::empty());
        assert(lines_patterns(all.take(0)) =~= Set::empty());
        assert(trie_contents(trie) =~= lines_patterns(all.take(0)).insert(root_wire()));
        while k < lines.len()
            invariant
                0 <= k <= lines.len(),
                lines@.len() == all.len(),
                forall|i: int| 0 <= i < lines@.len() ==> #[trigger] lines@[i]@ == all[i],
                trie_contents(trie) == lines_patterns(all.take(k as int)).insert(root_wire()),
                forall|name: Seq<u8>| #[trigger] trie_contents(trie).contains(name) ==> wire_shaped(name),
            decreases lines.len() - k,
        {
            assert(lines@[k as int]@ == all[k as int]);
            match parse_fqdn(lines[k].as_slice()) {
                Some(name) => {
                    proof {
                        lemma_parsed_wire_shaped(lines@[k as int]@);
                    }
                    trie_insert(&mut trie, name);
                },
                None => {},
            }
            proof {
                lemma_lines_patterns_push(all.take(k as int), all[k as int]);
                assert(all.take(k + 1) =~= all.take(k as int).push(all[k as int]));
                assert(trie_contents(trie) =~= lines_patterns(all.take(k + 1)).insert(root_wire()));
            }
            k = k + 1;
        }
        assert(all.take(lines.len() as int) =~= all);
        let set_v4 = set_name.to_owned().concat("_v4");
        let set_v6 = set_name.to_owned().concat("_v6");
        let r = RuleSet {
            table_name: table_name.to_owned(),
            set_name_v4: set_v4,
            set_name_v6: set_v6,
            patterns: trie,
        };
        assert(r.patterns() =~= text_patterns(text@));
        r
    }

    /// Whether `hostname` matches one of the patterns: it is a valid name and
    /// some pattern other than the root is a parent domain of it (or the name
    /// itself). The comparison ignores letter case, as parsing lowercases.
    pub fn matches(&self, hostname: &str) -> (r: bool)
        requires
            self.wf(),
        ensures
            r == host_matches(self.patterns(), hostname@),
    {
        let chars = text_chars(hostname);
        let name = match parse_fqdn(chars.as_slice()) {
            Some(name) => name,
            None => return false,
        };
        proof {
            lemma_parsed_wire_shaped(chars@);
        }
        let ghost q = name@;
        let ghost p = self.patterns();
        assert(parsed_fqdn(chars@) == Some(q));
        let n = name.len();
        let mut off: usize = 0;
        assert(q.skip(0) =~= q);
        // Walk the parents of the name, whole labels at a time, and ask the
        // trie for each of them.
        loop
            invariant
                self.wf(),
                p == self.patterns(),
                parsed_fqdn(chars@) == Some(q),
                chars@ == hostname@,
                name@ == q,
                n == q.len(),
                off < n,
                label_suffix(q, q.skip(off as int)),
                forall|parent: Seq<u8>|
                    #![trigger p.contains(parent)]
                    p.contains(parent) && !is_root_wire(parent) && label_suffix(q, parent)
                        ==> label_suffix(q.skip(off as int), parent),
            decreases n - off,
        {
            let ghost here = q.skip(off as int);
            if name[off] == 0 {
                proof {
                    assert forall|parent: Seq<u8>|
                        p.contains(parent) && !is_root_wire(parent) implies !label_suffix(
                        here,
                        parent,
                    ) by {
                        assert(here[0] == 0);
                        if here == parent {
                            assert(parent[0] == 0);
                        }
                    }
                }
                return false;
            }
            let suffix = copy_tail(&name, off);
            assert(is_parsed_suffix(suffix@));
            let found = trie_lookup(&self.patterns, &suffix);
            if bytes_equal(&found, &suffix) {
                assert(here[0] != 0);
                assert(!is_root_wire(here));
                assert(p.contains(here));
                assert(label_suffix(q, here));
                return true;
            }
            proof {
                if p.contains(here) {
                    assert(here.subrange(0, here.len() as int) =~= here);
                    assert(is_subdomain(here, here));
                    assert(found@.len() == here.len());
                    assert(found@ =~= here);
                }
            }
            let step = name[off] as usize + 1;
            if step >= n - off {
                proof {
                    assert forall|parent: Seq<u8>|
                        p.contains(parent) && !is_root_wire(parent) implies !label_suffix(
                        here,
                        parent,
                    ) by {
                        assert(here != parent);
                    }
                }
                return false;
            }
            let next = off + step;
            proof {
                assert(here.skip(here[0] + 1) =~= q.skip(next as int));
                lemma_label_suffix_step(q, here);
                assert forall|parent: Seq<u8>|
                    #![trigger p.contains(parent)]
                    p.contains(parent) && !is_root_wire(parent) && label_suffix(q, parent)
                        implies label_suffix(q.skip(next as int), parent) by {
                    assert(here != parent);
                }
            }
            off = next;
        }
    }
}

/// Copies `v[from..]`.
fn copy_tail(v: &Vec<u8>, from: usize) -> (tail: Vec<u8>)
    requires
        from <= v.len(),
    ensures
        tail@ == v@.skip(from as int),
{
    let mut tail: Vec<u8> = Vec::new();
    let mut k = from;
    while k < v.len()
        invariant
            from <= k <= v.len(),
            tail@ == v@.subrange(from as int, k as int),
        decreases v.len() - k,
    {
        tail.push(v[k]);
        k = k + 1;
        assert(tail@ =~= v@.subrange(from as int, k as int));
    }
    assert(v@.subrange(from as int, v.len() as int) =~= v@.skip(from as int));
    tail
}

/// Whether two byte vectors hold the same bytes.
fn bytes_equal(a: &Vec<u8>, b: &Vec<u8>) -> (same: bool)
    ensures
        same == (a@ == b@),
{
    if a.len() != b.len() {
        return false;
    }
    let mut k: usize = 0;
    while k < a.len()
        invariant
            a.len() == b.len(),
            0 <= k <= a.len(),
            forall|i: int| 0 <= i < k ==> a@[i] == b@[i],
        decreases a.len() - k,
    {
        if a[k] != b[k] {
            return false;
        }
        k = k + 1;
    }
    assert(a@ =~= b@);
    true
}

impl RuleSet {
    /// Builds the request that adds the given addresses to the two sets of
    /// this rule set.
    pub fn add_request(&self, addrs_v4: &[[u8; 4]], addrs_v6: &[[u8; 16]]) -> (r: Result<
        Vec<u8>,
        NftError,
    >)
        ensures
            request_matches(self.table(), self.set_v4(), self.set_v6(), addrs_v4@, addrs_v6@, r),
    {
        build_setelem_batch(
            self.table_name.as_str(),
            self.set_name_v4.as_str(),
            self.set_name_v6.as_str(),
            addrs_v4,
            addrs_v6,
        )
    }
}

/// The positions, in increasing order, of the rule sets that `hostname`
/// matches: the rule sets whose sets take the addresses it resolves to.
pub fn matching_rules(rules: &Vec<RuleSet>, hostname: &str) -> (matched: Vec<usize>)
    requires
        forall|i: int| 0 <= i < rules.len() ==> #[trigger] rules[i].wf(),
    ensures
        forall|k: int|
            0 <= k < matched.len() ==> #[trigger] matched[k] < rules.len() && host_matches(
                rules[matched[k] as int].patterns(),
                hostname@,
            ),
        forall|k: int, l: int| 0 <= k < l < matched.len() ==> matched[k] < matched[l],
        forall|i: int|
            0 <= i < rules.len() && host_matches(#[trigger] rules[i].patterns(), hostname@)
                ==> matched@.contains(i as usize),
{
    let mut matched: Vec<usize> = Vec::new();
    let mut i: usize = 0;
    while i < rules.len()
        invariant
            0 <= i <= rules.len(),
            forall|j: int| 0 <= j < rules.len() ==> #[trigger] rules[j].wf(),
            forall|k: int|
                0 <= k < matched.len() ==> #[trigger] matched[k] < i && host_matches(
                    rules[matched[k] as int].patterns(),
                    hostname@,
                ),
            forall|k: int, l: int| 0 <= k < l < matched.len() ==> matched[k] < matched[l],
            forall|j: int|
                0 <= j < i && host_matches(#[trigger] rules[j].patterns(), hostname@)
                    ==> matched@.contains(j as usize),
        decreases rules.len() - i,
    {
        if rules[i].matches(hostname) {
            let ghost before = matched@;
            matched.push(i);
            proof {
                assert(matched@[before.len() as int] == i);
                assert forall|j: int|
                    0 <= j < i + 1 && host_matches(
                        #[trigger] rules[j].patterns(),
                        hostname@,
                    ) implies matched@.contains(j as usize) by {
                    if j < i {
                        let k = choose|k: int| 0 <= k < before.len() && before[k] == j as usize;
                        assert(matched@[k] == j as usize);
                    } else {
                        assert(matched@[before.len() as int] == j as usize);
                    }
                }
            }
        }
        i = i + 1;
    }
    matched
}

} // verus!
