//! Domain names in their wire form and the pattern trie they are looked up in.
//!
//! A name is held as the byte sequence of its wire form: each label is
//! preceded by its length and the sequence ends with a nul byte, so that the
//! root name is the single byte `0`. Parsing a textual name and the trie that
//! finds the longest stored parent of a name are done by the `fqdn` and
//! `fqdn_trie` crates; the items here carry their results as plain bytes.

use vstd::prelude::*;
use fqdn::FQDN;
use fqdn_trie::FqdnTrieSet;

verus! {

/// The wire form of the root name.
pub open spec fn root_wire() -> Seq<u8> {
    seq![0u8]
}

/// A wire-form name denotes the root when its first label length is zero.
pub open spec fn is_root_wire(name: Seq<u8>) -> bool {
    name.len() > 0 && name[0] == 0
}

/// `child` lies under `parent` (or equals it): the wire bytes of `child` end
/// with the wire bytes of `parent`.
pub open spec fn is_subdomain(child: Seq<u8>, parent: Seq<u8>) -> bool {
    &&& child.len() >= parent.len()
    &&& child.subrange(child.len() - parent.len(), child.len() as int) == parent
}

/// The outline every parsed name has: it ends with a nul byte and it is the
/// root exactly when it is that single byte.
pub open spec fn wire_shaped(name: Seq<u8>) -> bool {
    &&& name.len() >= 1
    &&& name.last() == 0
    &&& (name[0] == 0 <==> name.len() == 1)
}

/// The position of the first `c` in `s`, or the length of `s` when there is
/// none.
pub open spec fn find_char(s: Seq<char>, c: char) -> nat
    decreases s.len(),
{
    if s.len() == 0 {
        0
    } else if s[0] == c {
        0
    } else {
        1 + find_char(s.drop_first(), c)
    }
}

/// The byte a character of a label stands for: letters are lowercased,
/// digits, `-`, `_` and `#` are kept, and no other character is allowed.
pub open spec fn label_char(c: char) -> Option<u8> {
    if ('a' <= c && c <= 'z') || ('0' <= c && c <= '9') || c == '-' || c == '_' || c == '#' {
        Some(c as u8)
    } else if 'A' <= c && c <= 'Z' {
        Some((c as u8 + 32) as u8)
    } else {
        None
    }
}

/// The wire form of one label: its length (one to 255) and its characters.
pub open spec fn label_wire(label: Seq<char>) -> Option<Seq<u8>> {
    if 1 <= label.len() <= 255 && forall|i: int| 0 <= i < label.len() ==> #[trigger] label_char(
        label[i],
    ) is Some {
        Some(seq![label.len() as u8] + Seq::new(label.len(), |i: int| label_char(label[i])->0))
    } else {
        None
    }
}

/// The wire form of the labels of a dot-separated text (no trailing nul).
pub open spec fn labels_wire(body: Seq<char>) -> Option<Seq<u8>>
    decreases body.len(),
{
    let j = find_char(body, '.');
    match label_wire(body.take(j as int)) {
        None => None,
        Some(first) => if j < body.len() {
            match labels_wire(body.skip(j + 1 as int)) {
                Some(rest) => Some(first + rest),
                None => None,
            }
        } else {
            Some(first)
        },
    }
}

/// What `FQDN::from_ascii_str` makes of a text (none of the crate's optional
/// checks enabled): the empty text and `.` are the root; otherwise one
/// trailing dot is dropped and the rest is split at dots into labels, each of
/// one to 255 allowed characters, and the wire form ends with a nul byte.
/// `None` when the text is not a valid name.
pub open spec fn parsed_fqdn(text: Seq<char>) -> Option<Seq<u8>> {
    if text.len() == 0 || text == seq!['.'] {
        Some(root_wire())
    } else {
        let body = if text.last() == '.' {
            text.drop_last()
        } else {
            text
        };
        match labels_wire(body) {
            Some(w) => Some(w.push(0u8)),
            None => None,
        }
    }
}

/// `name` is the wire form of some parsed text.
pub open spec fn is_parsed_name(name: Seq<u8>) -> bool {
    exists|text: Seq<char>| #[trigger] parsed_fqdn(text) == Some(name)
}

/// `child` lies under `parent` label by label (or equals it): dropping whole
/// leading labels of `child`, one at a time, reaches `parent`.
pub open spec fn label_suffix(child: Seq<u8>, parent: Seq<u8>) -> bool
    decreases child.len(),
{
    if child == parent {
        true
    } else if child.len() == 0 || child[0] == 0 || child[0] + 1 >= child.len() {
        false
    } else {
        label_suffix(child.skip(child[0] + 1), parent)
    }
}

/// `name` is a parsed name or what remains of one after dropping leading
/// labels.
pub open spec fn is_parsed_suffix(name: Seq<u8>) -> bool {
    exists|text: Seq<char>|
        #![trigger parsed_fqdn(text)]
        parsed_fqdn(text) is Some && label_suffix(parsed_fqdn(text)->0, name)
}

/// Parses a textual domain name with `fqdn::FQDN::from_ascii_str` and hands
/// out the wire bytes of the result (`as_bytes`, which includes the trailing
/// nul byte).
///
/// Claimed of the outside code: the result is `parsed_fqdn` of the text (the
/// parse works on the bytes of the text, but a non-ASCII character is refused
/// in any label, and a dot byte never stands inside one).
#[verifier::external_body]
pub(crate) fn parse_fqdn(text: &[char]) -> (parsed: Option<Vec<u8>>)
    ensures
        match parsed {
            Some(name) => parsed_fqdn(text@) == Some(name@),
            None => parsed_fqdn(text@) is None,
        },
{
    let text: String = text.iter().collect();
    match FQDN::from_ascii_str(&text) {
        Ok(name) => Some(name.as_bytes().to_vec()),
        Err(_) => None,
    }
}

/// A set of domain names kept in a `fqdn_trie::FqdnTrieSet`.
///
/// The set is held in a private field rather than declared as an outside
/// type: Verus does not take a declaration of `FqdnTrieSet`, whose element
/// parameter is bounded by `AsRef<Fqdn>`. Only the wrappers below touch it.
#[verifier::external_body]
pub struct PatternTrie {
    set: FqdnTrieSet<FQDN>,
}

/// The wire forms of the names a trie holds; the root is always among them.
pub uninterp spec fn trie_contents(trie: PatternTrie) -> Set<Seq<u8>>;

/// Creates a trie with `FqdnTrieSet::default`, which holds the root name alone.
#[verifier::external_body]
pub(crate) fn trie_new() -> (trie: PatternTrie)
    ensures
        trie_contents(trie) == set![root_wire()],
{
    PatternTrie { set: FqdnTrieSet::<FQDN>::default() }
}

/// Adds a name with `FqdnTrieSet::insert`, after rebuilding it from its wire
/// bytes with `FQDN::from_vec`.
///
/// Claimed of the outside code: `from_vec` accepts the bytes of every parsed
/// name unchanged, and `insert` adds the name, returning whether it was absent.
#[verifier::external_body]
pub(crate) fn trie_insert(trie: &mut PatternTrie, name: Vec<u8>) -> (added: bool)
    requires
        is_parsed_name(name@),
    ensures
        trie_contents(*final(trie)) == trie_contents(*old(trie)).insert(name@),
        added == !trie_contents(*old(trie)).contains(name@),
{
    match FQDN::from_vec(name) {
        Ok(name) => trie.set.insert(name),
        Err(_) => false,
    }
}

/// Finds with `FqdnTrieSet::lookup` the longest stored parent domain of a
/// name (rebuilt from its wire bytes with `FQDN::from_vec`) and hands out its
/// wire bytes.
///
/// Claimed of the outside code, as its documentation says: the result is a
/// stored name of which the looked-up name is a subdomain
/// (`Fqdn::is_subdomain_of`, a suffix test on the wire bytes, which need not
/// end on a label boundary), and no longer stored name is one; the root
/// always qualifies. `from_vec` accepts unchanged every parsed name and what
/// remains of one after dropping leading labels.
#[verifier::external_body]
pub(crate) fn trie_lookup(trie: &PatternTrie, name: &Vec<u8>) -> (found: Vec<u8>)
    requires
        is_parsed_suffix(name@),
    ensures
        trie_contents(*trie).contains(found@),
        is_subdomain(name@, found@),
        forall|other: Seq<u8>|
            #![trigger trie_contents(*trie).contains(other)]
            trie_contents(*trie).contains(other) && is_subdomain(name@, other)
                ==> other.len() <= found@.len(),
{
    match FQDN::from_vec(name.clone()) {
        Ok(name) => trie.set.lookup(name).as_bytes().to_vec(),
        Err(_) => Vec::new(),
    }
}

/// The first `c` of a text is where the scan for it stops.
pub proof fn lemma_find_char(s: Seq<char>, c: char, d: int)
    requires
        0 <= d <= s.len(),
        forall|k: int| 0 <= k < d ==> s[k] != c,
        d == s.len() || s[d] == c,
    ensures
        find_char(s, c) == d,
    decreases s.len(),
{
    if s.len() > 0 && d > 0 {
        assert forall|k: int| 0 <= k < d - 1 implies s.drop_first()[k] != c by {
            assert(s.drop_first()[k] == s[k + 1]);
        }
        lemma_find_char(s.drop_first(), c, d - 1);
    }
}

/// Dropping one more leading label of a parent keeps it a parent.
pub proof fn lemma_label_suffix_step(child: Seq<u8>, mid: Seq<u8>)
    requires
        label_suffix(child, mid),
        mid.len() > 0,
        mid[0] != 0,
        mid[0] + 1 < mid.len(),
    ensures
        label_suffix(child, mid.skip(mid[0] + 1)),
    decreases child.len(),
{
    if child == mid {
        let next = mid.skip(mid[0] + 1);
        assert(next != mid);
        assert(label_suffix(next, next));
    } else {
        lemma_label_suffix_step(child.skip(child[0] + 1), mid);
        let next = mid.skip(mid[0] + 1);
        if child == next {
            assert(child.len() == mid.len() - mid[0] - 1);
        }
    }
}

/// Every parsed name ends with a nul byte and starts with a zero byte only
/// when it is the root.
pub proof fn lemma_parsed_wire_shaped(text: Seq<char>)
    requires
        parsed_fqdn(text) is Some,
    ensures
        wire_shaped(parsed_fqdn(text)->0),
{
    if !(text.len() == 0 || text == seq!['.']) {
        let body = if text.last() == '.' {
            text.drop_last()
        } else {
            text
        };
        let j = find_char(body, '.');
        lemma_find_char_bound(body, '.');
        let first = label_wire(body.take(j as int))->0;
        assert(first[0] != 0);
        assert(first.len() >= 2);
        let w = labels_wire(body)->0;
        if j < body.len() {
            let rest = labels_wire(body.skip(j + 1 as int))->0;
            assert(w == first + rest);
        }
        assert(w[0] == first[0]);
    }
}

/// A parsed name is never empty.
pub proof fn lemma_parsed_nonempty(text: Seq<char>)
    requires
        parsed_fqdn(text) is Some,
    ensures
        parsed_fqdn(text)->0.len() >= 1,
{
}

/// Parsing a label, a dot and a name gives the wire form of the label followed
/// by that of the name.
pub proof fn lemma_parse_prepend_label(label: Seq<char>, host: Seq<char>)
    requires
        label.len() > 0,
        forall|k: int| 0 <= k < label.len() ==> label[k] != '.',
        parsed_fqdn(label + seq!['.'] + host) is Some,
    ensures
        label_wire(label) is Some,
        parsed_fqdn(host) is Some,
        parsed_fqdn(label + seq!['.'] + host) == Some(
            label_wire(label)->0 + parsed_fqdn(host)->0,
        ),
{
    let t = label + seq!['.'] + host;
    let n = label.len() as int;
    assert(t[n] == '.');
    assert(t.len() > 1);
    assert(t != seq!['.']);
    if host.len() == 0 {
        assert(t.last() == '.');
        assert(t.drop_last() =~= label);
        assert forall|k: int| 0 <= k < n implies label[k] != '.' by {}
        lemma_find_char(label, '.', n);
        assert(label.take(n) =~= label);
    } else {
        let body_h = if host.last() == '.' {
            host.drop_last()
        } else {
            host
        };
        let body_t = if t.last() == '.' {
            t.drop_last()
        } else {
            t
        };
        assert(t.last() == host.last());
        assert(body_t =~= label + seq!['.'] + body_h);
        assert forall|k: int| 0 <= k < n implies body_t[k] != '.' by {
            assert(body_t[k] == label[k]);
        }
        assert(body_t[n] == '.');
        lemma_find_char(body_t, '.', n);
        assert(body_t.take(n) =~= label);
        assert(body_t.skip(n + 1) =~= body_h);
        if host == seq!['.'] {
            assert(body_h.len() == 0);
            assert(body_h.take(0) =~= Seq::<char>::empty());
            assert(labels_wire(body_h) is None);
        } else {
            let lw = label_wire(label)->0;
            let rest = labels_wire(body_h)->0;
            assert((lw + rest).push(0u8) =~= lw + rest.push(0u8));
        }
    }
}

/// `char::to_ascii_lowercase`: an ASCII capital becomes its small letter.
pub open spec fn ascii_lower(c: char) -> char {
    if 'A' <= c && c <= 'Z' {
        ((c as u32) + 32) as char
    } else {
        c
    }
}

/// The text with every ASCII capital replaced by its small letter.
pub open spec fn lowercase(s: Seq<char>) -> Seq<char> {
    Seq::new(s.len(), |i: int| ascii_lower(s[i]))
}

proof fn lemma_label_char_lower(c: char)
    ensures
        label_char(ascii_lower(c)) == label_char(c),
        (ascii_lower(c) == '.') == (c == '.'),
{
}

proof fn lemma_find_char_lower(s: Seq<char>)
    ensures
        find_char(lowercase(s), '.') == find_char(s, '.'),
    decreases s.len(),
{
    if s.len() > 0 {
        lemma_label_char_lower(s[0]);
        assert(lowercase(s)[0] == ascii_lower(s[0]));
        assert(lowercase(s).drop_first() =~= lowercase(s.drop_first()));
        lemma_find_char_lower(s.drop_first());
    }
}

proof fn lemma_label_wire_lower(label: Seq<char>)
    ensures
        label_wire(lowercase(label)) == label_wire(label),
{
    let low = lowercase(label);
    assert forall|i: int| 0 <= i < label.len() implies #[trigger] label_char(low[i]) == label_char(
        label[i],
    ) by {
        lemma_label_char_lower(label[i]);
    }
    if label_wire(label) is Some {
        assert(Seq::new(low.len(), |i: int| label_char(low[i])->0) =~= Seq::new(
            label.len(),
            |i: int| label_char(label[i])->0,
        ));
    } else {
        if 1 <= label.len() <= 255 {
            let i = choose|i: int| 0 <= i < label.len() && !(#[trigger] label_char(label[i]) is Some);
            assert(label_char(low[i]) is None);
        }
    }
}

/// The scan for a character stops within the text.
pub proof fn lemma_find_char_bound(s: Seq<char>, c: char)
    ensures
        find_char(s, c) <= s.len(),
    decreases s.len(),
{
    if s.len() > 0 {
        lemma_find_char_bound(s.drop_first(), c);
    }
}

proof fn lemma_labels_wire_lower(body: Seq<char>)
    ensures
        labels_wire(lowercase(body)) == labels_wire(body),
    decreases body.len(),
{
    let low = lowercase(body);
    lemma_find_char_lower(body);
    let j = find_char(body, '.');
    lemma_find_char_bound(body, '.');
    assert(low.take(j as int) =~= lowercase(body.take(j as int)));
    lemma_label_wire_lower(body.take(j as int));
    if j < body.len() {
        assert(low.skip(j + 1 as int) =~= lowercase(body.skip(j + 1 as int)));
        lemma_labels_wire_lower(body.skip(j + 1 as int));
    }
}

/// Letter case does not change a parsed name: a text and its lowercase
/// parse alike.
pub proof fn lemma_parse_ignores_case(text: Seq<char>)
    ensures
        parsed_fqdn(lowercase(text)) == parsed_fqdn(text),
{
    let low = lowercase(text);
    if text.len() > 0 {
        lemma_label_char_lower(text.last());
        assert(low.last() == ascii_lower(text.last()));
        if text == seq!['.'] {
            assert(low =~= seq!['.']);
        } else if low == seq!['.'] {
            assert(low[0] == ascii_lower(text[0]));
            lemma_label_char_lower(text[0]);
            assert(text =~= seq!['.']);
        }
        if text.last() == '.' {
            assert(low.drop_last() =~= lowercase(text.drop_last()));
            lemma_labels_wire_lower(text.drop_last());
        } else {
            lemma_labels_wire_lower(text);
        }
    }
}

/// Collects the characters of a text.
pub fn text_chars(text: &str) -> (chars: Vec<char>)
    ensures
        chars@ == text@,
{
    let mut chars: Vec<char> = Vec::new();
    for c in it: text.chars()
        invariant
            it.seq() == text@,
            chars@ == it.seq().take(it.index() as int),
    {
        chars.push(c);
    }
    chars
}

} // verus!
