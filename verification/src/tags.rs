//! Entity tags, lists of them, and tags without blanks.
//!
//! An entity tag may not hold blanks, but a header value may have them inside
//! quotes. They are written as escapes before tags are compared. The escapes
//! are the same for every text and tell all characters apart, so two tags are
//! equal exactly if their escaped forms are.

use crate::text;
use crate::validators;
use vstd::prelude::*;
use vstd::slice::slice_subrange;

verus! {

/// Whether a quoted part is open after `c`, given whether one was before it.
pub open spec fn quoted_after(quoted: bool, c: char) -> bool {
    if c == '"' {
        !quoted
    } else {
        quoted
    }
}

/// Whether `s` has a blank inside quotes, where `quoted` says whether it begins
/// inside.
pub open spec fn has_blank_from(s: Seq<char>, quoted: bool) -> bool
    decreases s.len(),
{
    s.len() > 0 && ((quoted && (s[0] == ' ' || s[0] == '\t')) || has_blank_from(
        s.skip(1),
        quoted_after(quoted, s[0]),
    ))
}

/// Whether `s` has a blank inside quotes.
pub open spec fn has_quoted_blank(s: Seq<char>) -> bool {
    has_blank_from(s, false)
}

/// How a character is written inside or outside quotes.
pub open spec fn escape(c: char, quoted: bool) -> Seq<char> {
    if quoted && c == '!' {
        seq!['!', '!']
    } else if quoted && c == ' ' {
        seq!['!', '_']
    } else if quoted && c == '\t' {
        seq!['!', '-']
    } else {
        seq![c]
    }
}

/// `s` with escapes, where `quoted` says whether it begins inside quotes.
pub open spec fn escaped_from(s: Seq<char>, quoted: bool) -> Seq<char>
    decreases s.len(),
{
    if s.len() == 0 {
        seq![]
    } else {
        escape(s[0], quoted) + escaped_from(s.skip(1), quoted_after(quoted, s[0]))
    }
}

/// `s` with escapes for what is inside quotes.
pub open spec fn escaped(s: Seq<char>) -> Seq<char> {
    escaped_from(s, false)
}

/// Writes the blanks inside quotes as escapes.
pub fn escape_quoted_blanks(s: &str) -> (res: String)
    ensures
        res@ == escaped(s@),
        !has_quoted_blank(res@),
{
    let cs = text::chars(s);
    let mut out: Vec<char> = Vec::new();
    let mut quoted = false;
    let mut i: usize = 0;
    assert(cs@.skip(0) =~= cs@);
    while i < cs.len()
        invariant
            0 <= i <= cs.len(),
            out@ + escaped_from(cs@.skip(i as int), quoted) == escaped(cs@),
        decreases cs.len() - i,
    {
        let c = cs[i];
        let ghost before = out@;
        proof {
            assert(cs@.skip(i as int)[0] == c);
            assert(cs@.skip(i as int).skip(1) =~= cs@.skip(i + 1));
        }
        if quoted && c == '!' {
            out.push('!');
            out.push('!');
        } else if quoted && c == ' ' {
            out.push('!');
            out.push('_');
        } else if quoted && c == '\t' {
            out.push('!');
            out.push('-');
        } else {
            out.push(c);
        }
        assert(out@ =~= before + escape(c, quoted));
        let ghost rest = escaped_from(cs@.skip(i + 1), quoted_after(quoted, c));
        assert(out@ + rest =~= before + (escape(c, quoted) + rest));
        if c == '"' {
            quoted = !quoted;
        }
        i += 1;
    }
    assert(cs@.skip(i as int) =~= seq![]);
    assert(out@ =~= escaped(s@));
    proof {
        lemma_no_blank_is_left(s@, false);
    }
    text::string_of(out.as_slice())
}

proof fn lemma_no_blank_is_left(s: Seq<char>, quoted: bool)
    ensures
        !has_blank_from(escaped_from(s, quoted), quoted),
    decreases s.len(),
{
    if s.len() > 0 {
        let after = quoted_after(quoted, s[0]);
        let head = escape(s[0], quoted);
        let rest = escaped_from(s.skip(1), after);
        let all = escaped_from(s, quoted);
        lemma_no_blank_is_left(s.skip(1), after);
        assert(all == head + rest);
        if head.len() == 2 {
            assert(all.skip(1)[0] == head[1]);
            assert(all.skip(1).skip(1) =~= rest);
            assert(!has_blank_from(all.skip(1), quoted));
            assert(all[0] == '!');
        } else {
            assert(all.skip(1) =~= rest);
        }
    }
}

/// Two texts with the same escaped form are equal.
pub proof fn lemma_escaped_injective(a: Seq<char>, b: Seq<char>, quoted: bool)
    requires
        escaped_from(a, quoted) == escaped_from(b, quoted),
    ensures
        a == b,
    decreases a.len(),
{
    let (x, y) = (escaped_from(a, quoted), escaped_from(b, quoted));
    if a.len() == 0 {
        if b.len() > 0 {
            assert(y.len() >= 1);
        }
        assert(a =~= b);
    } else if b.len() == 0 {
        assert(x.len() >= 1);
    } else {
        let (p, q) = (escape(a[0], quoted), escape(b[0], quoted));
        let rest_a = escaped_from(a.skip(1), quoted_after(quoted, a[0]));
        let rest_b = escaped_from(b.skip(1), quoted_after(quoted, b[0]));
        assert(x == p + rest_a && y == q + rest_b);
        assert(x[0] == p[0] && y[0] == q[0]);
        if p.len() == 2 {
            assert(x[1] == p[1]);
        }
        if q.len() == 2 {
            assert(y[1] == q[1]);
        }
        assert(a[0] == b[0]);
        assert(rest_a =~= x.skip(p.len() as int));
        assert(rest_b =~= y.skip(p.len() as int));
        lemma_escaped_injective(a.skip(1), b.skip(1), quoted_after(quoted, a[0]));
        assert(seq![a[0]] + a.skip(1) =~= a);
        assert(seq![b[0]] + b.skip(1) =~= b);
    }
}

/// Escapes change neither whether a text can be a header value nor whether it
/// is ASCII.
pub proof fn lemma_escaped_chars(s: Seq<char>, quoted: bool)
    ensures
        validators::is_header_text(escaped_from(s, quoted)) == validators::is_header_text(s),
        vstd::utf8::is_ascii_chars(escaped_from(s, quoted)) == vstd::utf8::is_ascii_chars(s),
    decreases s.len(),
{
    if s.len() > 0 {
        let after = quoted_after(quoted, s[0]);
        let head = escape(s[0], quoted);
        let rest = escaped_from(s.skip(1), after);
        let all = escaped_from(s, quoted);
        lemma_escaped_chars(s.skip(1), after);
        assert(all == head + rest);
        if validators::is_header_text(s) {
            assert(validators::is_header_char(s[0]));
            assert forall|i: int| 0 <= i < s.skip(1).len() implies validators::is_header_char(
                #[trigger] s.skip(1)[i],
            ) by {
                assert(s.skip(1)[i] == s[i + 1]);
            }
            assert forall|i: int| 0 <= i < all.len() implies validators::is_header_char(
                #[trigger] all[i],
            ) by {
                if i >= head.len() {
                    assert(all[i] == rest[i - head.len()]);
                } else {
                    assert(all[i] == head[i]);
                }
            }
        }
        if validators::is_header_text(all) {
            assert(validators::is_header_char(all[0]));
            assert forall|i: int| 0 <= i < rest.len() implies validators::is_header_char(
                #[trigger] rest[i],
            ) by {
                assert(rest[i] == all[i + head.len()]);
            }
            assert forall|i: int| 0 <= i < s.len() implies validators::is_header_char(
                #[trigger] s[i],
            ) by {
                if i > 0 {
                    assert(s[i] == s.skip(1)[i - 1]);
                } else {
                    assert(all[0] == head[0]);
                }
            }
        }
        if vstd::utf8::is_ascii_chars(s) {
            assert forall|i: int| 0 <= i < s.skip(1).len() implies '\0' <= #[trigger] s.skip(1)[i]
                <= '\u{7f}' by {
                assert(s.skip(1)[i] == s[i + 1]);
            }
            assert forall|i: int| 0 <= i < all.len() implies '\0' <= #[trigger] all[i]
                <= '\u{7f}' by {
                if i >= head.len() {
                    assert(all[i] == rest[i - head.len()]);
                } else {
                    assert(all[i] == head[i]);
                    assert('\0' <= s[0] <= '\u{7f}');
                }
            }
        }
        if vstd::utf8::is_ascii_chars(all) {
            assert forall|i: int| 0 <= i < rest.len() implies '\0' <= #[trigger] rest[i]
                <= '\u{7f}' by {
                assert(rest[i] == all[i + head.len()]);
            }
            assert forall|i: int| 0 <= i < s.len() implies '\0' <= #[trigger] s[i] <= '\u{7f}' by {
                if i > 0 {
                    assert(s[i] == s.skip(1)[i - 1]);
                } else {
                    assert('\0' <= all[0] <= '\u{7f}');
                }
            }
        }
    }
}

/// Whether `s` ends with its only quote.
spec fn closes_quote(s: Seq<char>) -> bool {
    &&& s.len() > 0
    &&& s.last() == '"'
    &&& forall|i: int| 0 <= i < s.len() - 1 ==> #[trigger] s[i] != '"'
}

proof fn lemma_closes_quote_step(head: Seq<char>, rest: Seq<char>)
    requires
        head.len() > 0,
        forall|i: int| 0 <= i < head.len() ==> #[trigger] head[i] != '"',
    ensures
        closes_quote(head + rest) == closes_quote(rest),
{
    let all = head + rest;
    if closes_quote(rest) {
        assert(all.last() == rest.last());
        assert forall|i: int| 0 <= i < all.len() - 1 implies #[trigger] all[i] != '"' by {
            if i < head.len() {
                assert(all[i] == head[i]);
            } else {
                assert(all[i] == rest[i - head.len()]);
            }
        }
    }
    if closes_quote(all) {
        if rest.len() == 0 {
            assert(all.last() == head[head.len() - 1]);
        } else {
            assert(all.last() == rest.last());
            assert forall|i: int| 0 <= i < rest.len() - 1 implies #[trigger] rest[i] != '"' by {
                assert(rest[i] == all[i + head.len()]);
            }
        }
    }
}

proof fn lemma_escaped_closes_quote(s: Seq<char>)
    ensures
        closes_quote(escaped_from(s, true)) == closes_quote(s),
    decreases s.len(),
{
    if s.len() > 0 {
        let rest = escaped_from(s.skip(1), quoted_after(true, s[0]));
        let head = escape(s[0], true);
        if s[0] == '"' {
            let all = escaped_from(s, true);
            assert(all == head + rest);
            assert(all[0] == '"');
            if s.len() > 1 {
                assert(rest.len() >= 1);
                assert(!closes_quote(s));
                assert(!closes_quote(all));
            } else {
                assert(s.skip(1) =~= seq![]);
                assert(all =~= head);
            }
        } else {
            lemma_escaped_closes_quote(s.skip(1));
            lemma_closes_quote_step(head, rest);
            lemma_closes_quote_step(seq![s[0]], s.skip(1));
            assert(seq![s[0]] + s.skip(1) =~= s);
        }
    }
}

proof fn lemma_quoted_is_closed(s: Seq<char>)
    ensures
        validators::is_quoted(s) <==> s.len() > 0 && s[0] == '"' && closes_quote(s.skip(1)),
{
    if s.len() > 0 && s[0] == '"' {
        let rest = s.skip(1);
        if closes_quote(rest) {
            assert(rest.last() == s.last());
            assert forall|i: int| 0 < i < s.len() - 1 implies #[trigger] s[i] != '"' by {
                assert(s[i] == rest[i - 1]);
            }
        }
        if validators::is_quoted(s) {
            assert(rest.last() == s.last());
            assert forall|i: int| 0 <= i < rest.len() - 1 implies #[trigger] rest[i] != '"' by {
                assert(rest[i] == s[i + 1]);
            }
        }
    }
}

/// A text is a quoted string exactly if its escaped form is.
pub proof fn lemma_escaped_quoted(s: Seq<char>)
    ensures
        validators::is_quoted(escaped(s)) == validators::is_quoted(s),
{
    let out = escaped(s);
    lemma_quoted_is_closed(s);
    lemma_quoted_is_closed(out);
    if s.len() > 0 {
        let rest = escaped_from(s.skip(1), quoted_after(false, s[0]));
        assert(out == seq![s[0]] + rest);
        assert(out.skip(1) =~= rest);
        if s[0] == '"' {
            lemma_escaped_closes_quote(s.skip(1));
        }
    }
}

/// A text is an entity tag exactly if its escaped form is, with the same
/// weakness, and two texts that are entity tags match exactly if their escaped
/// forms do.
pub proof fn lemma_escaped_tags(a: Seq<char>, b: Seq<char>)
    ensures
        validators::is_entity_tag(escaped(a)) == validators::is_entity_tag(a),
        validators::is_quoted(escaped(a)) == validators::is_quoted(a),
        validators::tags_match_strongly(escaped(a), escaped(b)) == validators::tags_match_strongly(
            a,
            b,
        ),
{
    lemma_escaped_chars(a, false);
    lemma_escaped_quoted(a);
    lemma_escaped_weak(a);
    if escaped(a) == escaped(b) {
        lemma_escaped_injective(a, b, false);
    }
}

/// Two entity tags match by weak comparison exactly if their escaped forms do.
pub proof fn lemma_escaped_weak_match(a: Seq<char>, b: Seq<char>)
    requires
        validators::is_entity_tag(a),
        validators::is_entity_tag(b),
    ensures
        validators::tags_match_weakly(escaped(a), escaped(b)) == validators::tags_match_weakly(
            a,
            b,
        ),
{
    lemma_escaped_opaque(a);
    lemma_escaped_opaque(b);
    let (x, y) = (validators::opaque_tag(a), validators::opaque_tag(b));
    if escaped(x) == escaped(y) {
        lemma_escaped_injective(x, y, false);
    }
}

proof fn lemma_escaped_opaque(s: Seq<char>)
    requires
        validators::is_entity_tag(s),
    ensures
        validators::opaque_tag(escaped(s)) == escaped(validators::opaque_tag(s)),
{
    lemma_escaped_quoted(s);
    if !validators::is_quoted(s) {
        assert(s.take(2)[0] == 'W' && s.take(2)[1] == '/');
        assert(s.skip(1)[0] == '/');
        assert(s.skip(1).skip(1) =~= s.skip(2));
        assert(escaped(s) == seq!['W'] + escaped_from(s.skip(1), false));
        assert(escaped_from(s.skip(1), false) == seq!['/'] + escaped_from(s.skip(2), false));
        assert(escaped(s).skip(2) =~= escaped(s.skip(2)));
    }
}

proof fn lemma_escaped_weak(s: Seq<char>)
    ensures
        (text::has_prefix(s, seq!['W', '/']) && validators::is_quoted(s.skip(2))) == (
        text::has_prefix(escaped(s), seq!['W', '/']) && validators::is_quoted(
            escaped(s).skip(2),
        )),
{
    let mark = seq!['W', '/'];
    let out = escaped(s);
    if s.len() == 0 {
        assert(out =~= s);
    } else {
        let one = escaped_from(s.skip(1), quoted_after(false, s[0]));
        assert(out == seq![s[0]] + one);
        if s[0] == 'W' {
            if s.len() == 1 {
                assert(s.skip(1) =~= seq![]);
                assert(out =~= s);
            } else {
                assert(s.skip(1)[0] == s[1]);
                assert(s.skip(1).skip(1) =~= s.skip(2));
                let two = escaped_from(s.skip(2), quoted_after(false, s[1]));
                assert(one == seq![s[1]] + two);
                assert(out[1] == s[1]);
                assert(out.skip(2) =~= two);
                if s[1] == '/' {
                    lemma_escaped_quoted(s.skip(2));
                    assert(s.take(2) =~= mark && out.take(2) =~= mark);
                } else {
                    assert(s.take(2)[1] == s[1] && out.take(2)[1] == s[1] && mark[1] == '/');
                }
            }
        } else {
            assert(mark[0] == 'W');
            if s.len() >= 2 {
                assert(s.take(2)[0] == s[0]);
            }
            if out.len() >= 2 {
                assert(out.take(2)[0] == s[0]);
            }
        }
    }
}

/// Where the first comma outside quotes is in `s`, or the length of `s` when
/// there is none. `quoted` says whether `s` begins inside quotes.
pub open spec fn comma_from(s: Seq<char>, quoted: bool) -> int
    decreases s.len(),
{
    if s.len() == 0 || (!quoted && s[0] == ',') {
        0
    } else {
        1 + comma_from(s.skip(1), quoted_after(quoted, s[0]))
    }
}

/// The items of a list with commas outside quotes between them, trimmed.
pub open spec fn list_items(s: Seq<char>) -> Seq<Seq<char>>
    decreases s.len(),
{
    let comma = comma_from(s, false);
    if 0 <= comma < s.len() {
        seq![text::trimmed(s.take(comma))] + list_items(s.skip(comma + 1))
    } else {
        seq![text::trimmed(s)]
    }
}

/// Whether some item of a list is an entity tag.
pub open spec fn holds_tag(s: Seq<char>) -> bool {
    exists|i: int|
        0 <= i < list_items(s).len() && validators::is_entity_tag(#[trigger] list_items(s)[i])
}

/// Whether some item of a list is an entity tag that matches by strong
/// comparison.
pub open spec fn list_matches_strongly(s: Seq<char>, etag: Seq<char>) -> bool {
    exists|i: int|
        0 <= i < list_items(s).len() && validators::is_entity_tag(#[trigger] list_items(s)[i])
            && validators::tags_match_strongly(list_items(s)[i], etag)
}

/// Whether some item of a list is an entity tag that matches by weak
/// comparison.
pub open spec fn list_matches_weakly(s: Seq<char>, etag: Seq<char>) -> bool {
    exists|i: int|
        0 <= i < list_items(s).len() && validators::is_entity_tag(#[trigger] list_items(s)[i])
            && validators::tags_match_weakly(list_items(s)[i], etag)
}

/// Whether a value can be read as `*` or a list of entity tags: it is the one
/// or holds one of the others.
pub open spec fn names_tags(s: Seq<char>) -> bool {
    s == seq!['*'] || holds_tag(s)
}

fn check_quoted(cs: &[char]) -> (res: bool)
    ensures
        res == validators::is_quoted(cs@),
{
    if cs.len() < 2 || cs[0] != '"' || cs[cs.len() - 1] != '"' {
        return false;
    }
    let mut i: usize = 1;
    while i < cs.len() - 1
        invariant
            1 <= i <= cs.len() - 1,
            forall|j: int| 0 < j < i ==> #[trigger] cs@[j] != '"',
        decreases cs.len() - i,
    {
        if cs[i] == '"' {
            return false;
        }
        i += 1;
    }
    true
}

/// Whether a text is an entity tag.
pub fn check_entity_tag(cs: &[char]) -> (res: bool)
    ensures
        res == validators::is_entity_tag(cs@),
{
    let mut i: usize = 0;
    while i < cs.len()
        invariant
            0 <= i <= cs.len(),
            forall|j: int| 0 <= j < i ==> validators::is_header_char(#[trigger] cs@[j]),
        decreases cs.len() - i,
    {
        let c = cs[i];
        if !((' ' <= c && c != '\u{7f}') || c == '\t') {
            assert(!validators::is_header_char(cs@[i as int]));
            return false;
        }
        i += 1;
    }
    if check_quoted(cs) {
        return true;
    }
    if cs.len() < 2 || cs[0] != 'W' || cs[1] != '/' {
        proof {
            if text::has_prefix(cs@, seq!['W', '/']) {
                assert(cs@.take(2)[0] == cs@[0] && cs@.take(2)[1] == cs@[1]);
            }
        }
        return false;
    }
    let rest = slice_subrange(cs, 2, cs.len());
    assert(rest@ =~= cs@.skip(2));
    assert(cs@.take(2) =~= seq!['W', '/']);
    check_quoted(rest)
}

proof fn lemma_comma_bounds(s: Seq<char>, quoted: bool)
    ensures
        0 <= comma_from(s, quoted) <= s.len(),
    decreases s.len(),
{
    if s.len() > 0 && (quoted || s[0] != ',') {
        lemma_comma_bounds(s.skip(1), quoted_after(quoted, s[0]));
    }
}

/// Where the first comma outside quotes is, from `start` on.
fn find_comma(cs: &[char], start: usize) -> (res: usize)
    requires
        start <= cs@.len(),
    ensures
        start <= res <= cs@.len(),
        res == start + comma_from(cs@.skip(start as int), false),
{
    let mut i: usize = start;
    let mut quoted = false;
    while i < cs.len()
        invariant
            start <= i <= cs.len(),
            start + comma_from(cs@.skip(start as int), false) == i + comma_from(
                cs@.skip(i as int),
                quoted,
            ),
        decreases cs.len() - i,
    {
        let c = cs[i];
        proof {
            assert(cs@.skip(i as int)[0] == c);
            assert(cs@.skip(i as int).skip(1) =~= cs@.skip(i + 1));
        }
        if !quoted && c == ',' {
            return i;
        }
        if c == '"' {
            quoted = !quoted;
        }
        i += 1;
    }
    i
}

/// Whether a value can be read as `*` or a list of entity tags.
pub fn check_names_tags(s: &str) -> (res: bool)
    ensures
        res == names_tags(s@),
{
    let cs = text::chars(s);
    if cs.len() == 1 && cs[0] == '*' {
        assert(cs@ =~= seq!['*']);
        return true;
    }
    proof {
        if s@ == seq!['*'] {
            assert(cs@[0] == '*');
        }
        assert(cs@.skip(0) =~= cs@);
    }
    let mut start: usize = 0;
    loop
        invariant
            0 <= start <= cs.len(),
            cs@ == s@,
            s@ != seq!['*'],
            holds_tag(s@) == holds_tag(cs@.skip(start as int)),
        decreases cs.len() - start,
    {
        let ghost rest = cs@.skip(start as int);
        let end = find_comma(cs.as_slice(), start);
        let item = text::trim(slice_subrange(cs.as_slice(), start, end));
        proof {
            lemma_comma_bounds(rest, false);
            assert(cs@.subrange(start as int, end as int) =~= rest.take(end - start));
            if end == cs@.len() {
                assert(rest.take(end - start) =~= rest);
            }
            assert(list_items(rest)[0] == item@);
        }
        if check_entity_tag(item) {
            assert(holds_tag(rest));
            return true;
        }
        if end == cs.len() {
            assert(list_items(rest).len() == 1);
            return false;
        }
        proof {
            let tail = cs@.skip(end + 1);
            assert(rest.skip(end - start + 1) =~= tail);
            assert(list_items(rest) == seq![item@] + list_items(tail));
            if holds_tag(rest) {
                let i = choose|i: int|
                    0 <= i < list_items(rest).len() && validators::is_entity_tag(
                        #[trigger] list_items(rest)[i],
                    );
                assert(list_items(tail)[i - 1] == list_items(rest)[i]);
            }
            if holds_tag(tail) {
                let i = choose|i: int|
                    0 <= i < list_items(tail).len() && validators::is_entity_tag(
                        #[trigger] list_items(tail)[i],
                    );
                assert(list_items(rest)[i + 1] == list_items(tail)[i]);
            }
        }
        start = end + 1;
    }
}

proof fn lemma_no_comma_in_quotes(s: Seq<char>)
    requires
        closes_quote(s),
    ensures
        comma_from(s, true) == s.len(),
    decreases s.len(),
{
    if s[0] == '"' {
        assert(s.len() == 1);
        assert(s.skip(1) =~= seq![]);
        assert(comma_from(s.skip(1), false) == 0);
    } else {
        assert(seq![s[0]] + s.skip(1) =~= s);
        lemma_closes_quote_step(seq![s[0]], s.skip(1));
        lemma_no_comma_in_quotes(s.skip(1));
    }
}

proof fn lemma_no_comma_in_quoted(s: Seq<char>)
    requires
        validators::is_quoted(s),
    ensures
        comma_from(s, false) == s.len(),
{
    lemma_quoted_is_closed(s);
    lemma_no_comma_in_quotes(s.skip(1));
}

/// An entity tag is a list of itself.
pub proof fn lemma_tag_is_a_list(s: Seq<char>)
    requires
        validators::is_entity_tag(s),
    ensures
        list_items(s) == seq![s],
        names_tags(s),
{
    if validators::is_quoted(s) {
        lemma_no_comma_in_quoted(s);
    } else {
        assert(s.take(2)[0] == 'W' && s.take(2)[1] == '/');
        assert(s.skip(1).skip(1) =~= s.skip(2));
        lemma_no_comma_in_quoted(s.skip(2));
        assert(comma_from(s.skip(1), false) == 1 + comma_from(s.skip(2), false));
        assert(s.skip(2).last() == s.last());
    }
    assert(text::trimmed(s) == s);
    assert(list_items(s)[0] == s);
}

/// A value without quotes holds no entity tags.
pub proof fn lemma_no_quotes_no_tags(s: Seq<char>)
    requires
        !s.contains('"'),
    ensures
        !holds_tag(s),
    decreases s.len(),
{
    lemma_comma_bounds(s, false);
    let comma = comma_from(s, false);
    let head = s.take(comma);
    lemma_trimmed_without_quotes(head);
    lemma_trimmed_without_quotes(s);
    assert forall|i: int| 0 <= i < head.len() implies #[trigger] head[i] != '"' by {
        assert(s.contains(s[i]));
    }
    lemma_tag_has_quotes(text::trimmed(head));
    lemma_tag_has_quotes(text::trimmed(s));
    if comma < s.len() {
        let tail = s.skip(comma + 1);
        if tail.contains('"') {
            let i = choose|i: int| 0 <= i < tail.len() && tail[i] == '"';
            assert(s[i + comma + 1] == '"');
        }
        lemma_no_quotes_no_tags(tail);
        assert(list_items(s) == seq![text::trimmed(head)] + list_items(tail));
        assert forall|i: int| 0 <= i < list_items(s).len() implies !validators::is_entity_tag(
            #[trigger] list_items(s)[i],
        ) by {
            if i > 0 {
                assert(list_items(s)[i] == list_items(tail)[i - 1]);
            }
        }
    }
}

proof fn lemma_tag_has_quotes(s: Seq<char>)
    ensures
        validators::is_entity_tag(s) ==> s.contains('"'),
{
    if validators::is_entity_tag(s) {
        if validators::is_quoted(s) {
            assert(s.contains(s[0]));
        } else {
            assert(s.skip(2)[0] == s[2]);
            assert(s.contains(s[2]));
        }
    }
}

proof fn lemma_trimmed_without_quotes(s: Seq<char>)
    ensures
        !s.contains('"') ==> !text::trimmed(s).contains('"'),
    decreases s.len(),
{
    if s.len() > 0 && text::is_white(s[0]) {
        lemma_trimmed_without_quotes(s.skip(1));
        if s.skip(1).contains('"') {
            let i = choose|i: int| 0 <= i < s.skip(1).len() && s.skip(1)[i] == '"';
            assert(s[i + 1] == '"');
        }
    } else {
        lemma_trimmed_end_without_quotes(s);
    }
}

proof fn lemma_trimmed_end_without_quotes(s: Seq<char>)
    ensures
        !s.contains('"') ==> !text::trimmed_end(s).contains('"'),
    decreases s.len(),
{
    if s.len() > 0 && text::is_white(s.last()) {
        lemma_trimmed_end_without_quotes(s.drop_last());
        if s.drop_last().contains('"') {
            let i = choose|i: int| 0 <= i < s.drop_last().len() && s.drop_last()[i] == '"';
            assert(s[i] == '"');
        }
    }
}

/// Whether a quoted part is open after `s`.
pub open spec fn state_after(s: Seq<char>, quoted: bool) -> bool
    decreases s.len(),
{
    if s.len() == 0 {
        quoted
    } else {
        state_after(s.skip(1), quoted_after(quoted, s[0]))
    }
}

proof fn lemma_state_append(a: Seq<char>, b: Seq<char>, quoted: bool)
    ensures
        state_after(a + b, quoted) == state_after(b, state_after(a, quoted)),
        escaped_from(a + b, quoted) == escaped_from(a, quoted) + escaped_from(
            b,
            state_after(a, quoted),
        ),
    decreases a.len(),
{
    let all = a + b;
    if a.len() == 0 {
        assert(all =~= b);
        assert(escaped_from(a, quoted) + escaped_from(b, quoted) =~= escaped_from(b, quoted));
    } else {
        let after = quoted_after(quoted, a[0]);
        lemma_state_append(a.skip(1), b, after);
        assert(all.skip(1) =~= a.skip(1) + b);
        assert(all[0] == a[0]);
        let (head, x) = (escape(a[0], quoted), escaped_from(a.skip(1), after));
        let y = escaped_from(b, state_after(a, quoted));
        assert(head + (x + y) =~= head + x + y);
    }
}

proof fn lemma_state_without_quotes(s: Seq<char>, quoted: bool)
    requires
        forall|i: int| 0 <= i < s.len() ==> #[trigger] s[i] != '"',
    ensures
        state_after(s, quoted) == quoted,
        !quoted ==> escaped_from(s, quoted) == s,
    decreases s.len(),
{
    if s.len() > 0 {
        assert(s[0] != '"');
        assert forall|i: int| 0 <= i < s.skip(1).len() implies #[trigger] s.skip(1)[i] != '"' by {
            assert(s.skip(1)[i] == s[i + 1]);
        }
        lemma_state_without_quotes(s.skip(1), quoted);
        assert(seq![s[0]] + s.skip(1) =~= s);
    } else {
        assert(escaped_from(s, quoted) =~= s);
    }
}

proof fn lemma_state_of_escaped(s: Seq<char>, quoted: bool)
    ensures
        state_after(escaped_from(s, quoted), quoted) == state_after(s, quoted),
    decreases s.len(),
{
    if s.len() > 0 {
        let after = quoted_after(quoted, s[0]);
        let head = escape(s[0], quoted);
        lemma_state_of_escaped(s.skip(1), after);
        lemma_state_append(head, escaped_from(s.skip(1), after), quoted);
        assert(state_after(head, quoted) == after) by {
            if s[0] == '"' {
                assert(head.skip(1) =~= seq![]);
                assert(state_after(head.skip(1), after) == after);
            } else {
                lemma_state_without_quotes(head, quoted);
            }
        }
    }
}

proof fn lemma_quote_is_closed(s: Seq<char>)
    requires
        closes_quote(s),
    ensures
        !state_after(s, true),
    decreases s.len(),
{
    if s[0] == '"' {
        assert(s.len() == 1);
        assert(!state_after(s.skip(1), false));
    } else {
        assert(seq![s[0]] + s.skip(1) =~= s);
        lemma_closes_quote_step(seq![s[0]], s.skip(1));
        lemma_quote_is_closed(s.skip(1));
    }
}

proof fn lemma_tag_is_closed(s: Seq<char>)
    requires
        validators::is_entity_tag(s),
    ensures
        !state_after(s, false),
{
    if validators::is_quoted(s) {
        lemma_quoted_is_closed(s);
        lemma_quote_is_closed(s.skip(1));
    } else {
        let rest = s.skip(2);
        assert(s.take(2)[0] == 'W' && s.take(2)[1] == '/');
        lemma_quoted_is_closed(rest);
        lemma_quote_is_closed(rest.skip(1));
        assert(!state_after(rest, false));
        assert(s.skip(1)[0] == '/');
        assert(s.skip(1).skip(1) =~= rest);
        assert(!state_after(s.skip(1), false));
    }
}

proof fn lemma_trimmed_end_split(s: Seq<char>)
    ensures
        ({
            let kept = text::trimmed_end(s);
            &&& kept.len() <= s.len()
            &&& s == kept + s.skip(kept.len() as int)
            &&& forall|i: int| kept.len() <= i < s.len() ==> text::is_white(#[trigger] s[i])
            &&& kept.len() > 0 ==> !text::is_white(kept.last())
        }),
    decreases s.len(),
{
    let kept = text::trimmed_end(s);
    if s.len() > 0 && text::is_white(s.last()) {
        let t = s.drop_last();
        lemma_trimmed_end_split(t);
        assert forall|i: int| kept.len() <= i < s.len() implies text::is_white(
            #[trigger] s[i],
        ) by {
            if i < t.len() {
                assert(t[i] == s[i]);
            }
        }
        assert(kept =~= s.take(kept.len() as int)) by {
            assert(t == kept + t.skip(kept.len() as int));
            assert forall|i: int| 0 <= i < kept.len() implies kept[i] == s[i] by {
                assert(t[i] == kept[i]);
            }
        }
    }
    assert(s =~= kept + s.skip(kept.len() as int));
}

proof fn lemma_escaped_trimmed_start(s: Seq<char>)
    ensures
        text::trimmed_start(escaped(s)) == escaped(text::trimmed_start(s)),
    decreases s.len(),
{
    if s.len() > 0 {
        let out = escaped(s);
        assert(out == seq![s[0]] + escaped_from(s.skip(1), quoted_after(false, s[0])));
        if text::is_white(s[0]) {
            lemma_escaped_trimmed_start(s.skip(1));
            assert(out.skip(1) =~= escaped(s.skip(1)));
        }
    } else {
        assert(escaped(s) =~= s);
    }
}

proof fn lemma_escaped_last(s: Seq<char>, quoted: bool)
    requires
        s.len() > 0,
        !text::is_white(s.last()),
    ensures
        escaped_from(s, quoted).len() > 0,
        !text::is_white(escaped_from(s, quoted).last()),
{
    let before = s.drop_last();
    let tail = seq![s.last()];
    let state = state_after(before, quoted);
    assert(before + tail =~= s);
    lemma_state_append(before, tail, quoted);
    assert(escaped_from(tail.skip(1), quoted_after(state, s.last())) =~= seq![]);
    assert(escaped_from(tail, state) =~= escape(s.last(), state));
}

/// Whether an item and the escaped one are both no tags, or the same one.
spec fn is_same_item(item: Seq<char>, out: Seq<char>) -> bool {
    &&& validators::is_entity_tag(out) == validators::is_entity_tag(item)
    &&& validators::is_entity_tag(item) ==> out == escaped(item)
}

proof fn lemma_escaped_item(s: Seq<char>)
    ensures
        is_same_item(text::trimmed(s), text::trimmed(escaped(s))),
{
    let begun = text::trimmed_start(s);
    let item = text::trimmed_end(begun);
    let white = begun.skip(item.len() as int);
    let state = state_after(item, false);
    lemma_escaped_trimmed_start(s);
    lemma_trimmed_end_split(begun);
    assert forall|i: int| 0 <= i < white.len() implies #[trigger] white[i] != '"' by {
        assert(white[i] == begun[i + item.len()]);
    }
    lemma_state_append(item, white, false);
    lemma_state_without_quotes(white, state);
    let out = text::trimmed_end(escaped(begun));
    if !state {
        let all = escaped(item) + white;
        assert(escaped(begun) == all);
        let k = escaped(item).len() as int;
        assert forall|i: int| k <= i < all.len() implies text::is_white(#[trigger] all[i]) by {
            assert(all[i] == white[i - k]);
            assert(white[i - k] == begun[i - k + item.len()]);
        }
        if item.len() > 0 {
            lemma_escaped_last(item, false);
            assert(all[k - 1] == escaped(item).last());
        } else {
            assert(escaped(item) =~= seq![]);
        }
        text::lemma_trimmed_end(all, k);
        assert(all.take(k) =~= escaped(item));
        lemma_escaped_tags(item, item);
    } else {
        if validators::is_entity_tag(item) {
            lemma_tag_is_closed(item);
        }
        lemma_state_of_escaped(begun, false);
        lemma_trimmed_end_split(escaped(begun));
        let cut = escaped(begun).skip(out.len() as int);
        assert forall|i: int| 0 <= i < cut.len() implies #[trigger] cut[i] != '"' by {
            assert(cut[i] == escaped(begun)[i + out.len()]);
        }
        lemma_state_append(out, cut, false);
        lemma_state_without_quotes(cut, state_after(out, false));
        if validators::is_entity_tag(out) {
            lemma_tag_is_closed(out);
        }
    }
}

proof fn lemma_escaped_comma(s: Seq<char>, quoted: bool)
    ensures
        ({
            let comma = comma_from(s, quoted);
            let out = escaped_from(s, quoted);
            let head = escaped_from(s.take(comma), quoted);
            &&& comma_from(out, quoted) == head.len()
            &&& head.len() <= out.len()
            &&& out.take(head.len() as int) == head
            &&& comma == s.len() <==> head.len() == out.len()
            &&& comma < s.len() ==> out.skip(head.len() as int + 1) == escaped(s.skip(comma + 1))
        }),
    decreases s.len(),
{
    lemma_comma_bounds(s, quoted);
    let comma = comma_from(s, quoted);
    let out = escaped_from(s, quoted);
    let head = escaped_from(s.take(comma), quoted);
    if s.len() == 0 {
        assert(s.take(comma) =~= s);
        assert(out.take(head.len() as int) =~= head);
    } else {
        let after = quoted_after(quoted, s[0]);
        let rest = escaped_from(s.skip(1), after);
        let first = escape(s[0], quoted);
        assert(out == first + rest);
        if !quoted && s[0] == ',' {
            assert(s.take(0) =~= seq![]);
            assert(head =~= seq![]);
            assert(out[0] == ',');
            assert(out.take(0) =~= head);
            assert(out.skip(1) =~= rest);
        } else {
            lemma_escaped_comma(s.skip(1), after);
            lemma_comma_bounds(s.skip(1), after);
            let below = escaped_from(s.skip(1).take(comma - 1), after);
            assert(s.take(comma)[0] == s[0]);
            assert(s.take(comma).skip(1) =~= s.skip(1).take(comma - 1));
            assert(head == first + below);
            lemma_comma_after_escape(s[0], rest, quoted);
            assert(out.take(head.len() as int) =~= head) by {
                assert(out.take(head.len() as int) =~= first + rest.take(below.len() as int));
            }
            if comma < s.len() {
                assert(s.skip(1).skip(comma) =~= s.skip(comma + 1));
                assert(out.skip(head.len() as int + 1) =~= rest.skip(below.len() as int + 1));
            }
        }
    }
}

proof fn lemma_comma_after_escape(c: char, rest: Seq<char>, quoted: bool)
    requires
        quoted || c != ',',
    ensures
        comma_from(escape(c, quoted) + rest, quoted) == escape(c, quoted).len() + comma_from(
            rest,
            quoted_after(quoted, c),
        ),
{
    let first = escape(c, quoted);
    let all = first + rest;
    assert(all[0] == first[0]);
    if first.len() == 2 {
        assert(all.skip(1)[0] == first[1]);
        assert(all.skip(1).skip(1) =~= rest);
        assert(comma_from(all.skip(1), quoted) == 1 + comma_from(rest, quoted));
    } else {
        assert(all.skip(1) =~= rest);
    }
}

proof fn lemma_escaped_items(s: Seq<char>)
    ensures
        list_items(escaped(s)).len() == list_items(s).len(),
        forall|i: int|
            0 <= i < list_items(s).len() ==> is_same_item(
                #[trigger] list_items(s)[i],
                list_items(escaped(s))[i],
            ),
    decreases s.len(),
{
    lemma_comma_bounds(s, false);
    lemma_escaped_comma(s, false);
    let comma = comma_from(s, false);
    let out = escaped(s);
    let head = escaped(s.take(comma));
    lemma_escaped_item(s.take(comma));
    if comma < s.len() {
        let rest = s.skip(comma + 1);
        lemma_escaped_items(rest);
        let (items, found) = (list_items(s), list_items(out));
        assert(items == seq![text::trimmed(s.take(comma))] + list_items(rest));
        assert(found == seq![text::trimmed(head)] + list_items(escaped(rest)));
        assert forall|i: int| 0 <= i < items.len() implies is_same_item(
            #[trigger] items[i],
            found[i],
        ) by {
            if i > 0 {
                assert(items[i] == list_items(rest)[i - 1]);
                assert(found[i] == list_items(escaped(rest))[i - 1]);
            }
        }
    } else {
        assert(s.take(comma) =~= s);
    }
}

/// Escapes change nothing about a list: whether it can be read, and which tags
/// it matches strongly.
pub proof fn law_escapes_keep_strong_matches(raw: Seq<char>, etag: Seq<char>)
    ensures
        names_tags(escaped(raw)) == names_tags(raw),
        list_matches_strongly(escaped(raw), escaped(etag)) == list_matches_strongly(raw, etag),
{
    lemma_escaped_items(raw);
    lemma_escaped_star(raw);
    let (items, found) = (list_items(raw), list_items(escaped(raw)));
    assert forall|i: int| 0 <= i < items.len() implies {
        &&& validators::is_entity_tag(#[trigger] items[i]) == validators::is_entity_tag(found[i])
        &&& validators::is_entity_tag(items[i]) ==> validators::tags_match_strongly(
            items[i],
            etag,
        ) == validators::tags_match_strongly(found[i], escaped(etag))
    } by {
        assert(is_same_item(items[i], found[i]));
        lemma_escaped_tags(items[i], etag);
    }
    if holds_tag(raw) {
        let i = choose|i: int|
            0 <= i < items.len() && validators::is_entity_tag(#[trigger] items[i]);
        assert(validators::is_entity_tag(found[i]));
    }
    if holds_tag(escaped(raw)) {
        let i = choose|i: int|
            0 <= i < found.len() && validators::is_entity_tag(#[trigger] found[i]);
        assert(validators::is_entity_tag(items[i]));
    }
    if list_matches_strongly(raw, etag) {
        let i = choose|i: int|
            0 <= i < items.len() && validators::is_entity_tag(#[trigger] items[i])
                && validators::tags_match_strongly(items[i], etag);
        assert(validators::is_entity_tag(found[i]));
    }
    if list_matches_strongly(escaped(raw), escaped(etag)) {
        let i = choose|i: int|
            0 <= i < found.len() && validators::is_entity_tag(#[trigger] found[i])
                && validators::tags_match_strongly(found[i], escaped(etag));
        assert(validators::is_entity_tag(items[i]));
    }
}

/// Escapes change nothing about which tags a list matches weakly.
pub proof fn law_escapes_keep_weak_matches(raw: Seq<char>, etag: Seq<char>)
    requires
        validators::is_entity_tag(etag),
    ensures
        list_matches_weakly(escaped(raw), escaped(etag)) == list_matches_weakly(raw, etag),
{
    lemma_escaped_items(raw);
    let (items, found) = (list_items(raw), list_items(escaped(raw)));
    assert forall|i: int| 0 <= i < items.len() implies {
        &&& validators::is_entity_tag(#[trigger] items[i]) == validators::is_entity_tag(found[i])
        &&& validators::is_entity_tag(items[i]) ==> validators::tags_match_weakly(items[i], etag)
            == validators::tags_match_weakly(found[i], escaped(etag))
    } by {
        assert(is_same_item(items[i], found[i]));
        if validators::is_entity_tag(items[i]) {
            lemma_escaped_weak_match(items[i], etag);
        }
    }
    if list_matches_weakly(raw, etag) {
        let i = choose|i: int|
            0 <= i < items.len() && validators::is_entity_tag(#[trigger] items[i])
                && validators::tags_match_weakly(items[i], etag);
        assert(validators::is_entity_tag(found[i]));
    }
    if list_matches_weakly(escaped(raw), escaped(etag)) {
        let i = choose|i: int|
            0 <= i < found.len() && validators::is_entity_tag(#[trigger] found[i])
                && validators::tags_match_weakly(found[i], escaped(etag));
        assert(validators::is_entity_tag(items[i]));
    }
}

/// `*` is its own escaped form, and that of nothing else.
pub proof fn lemma_escaped_star(s: Seq<char>)
    ensures
        escaped(s) == seq!['*'] <==> s == seq!['*'],
{
    let star = seq!['*'];
    assert(escaped(star.skip(1)) =~= seq![]);
    assert(escaped(star) =~= star);
    if escaped(s) == star {
        lemma_escaped_injective(s, star, false);
    }
}

proof fn lemma_comma_behind(a: Seq<char>, b: Seq<char>, quoted: bool)
    requires
        comma_from(a, quoted) == a.len(),
    ensures
        comma_from(a + b, quoted) == a.len() + comma_from(b, state_after(a, quoted)),
    decreases a.len(),
{
    if a.len() > 0 {
        lemma_comma_bounds(a.skip(1), quoted_after(quoted, a[0]));
        lemma_comma_behind(a.skip(1), b, quoted_after(quoted, a[0]));
        assert((a + b).skip(1) =~= a.skip(1) + b);
        assert((a + b)[0] == a[0]);
    } else {
        assert(a + b =~= b);
    }
}

proof fn lemma_comma_before(a: Seq<char>, b: Seq<char>, quoted: bool)
    requires
        comma_from(a, quoted) < a.len(),
    ensures
        comma_from(a + b, quoted) == comma_from(a, quoted),
        state_after(a, quoted) == state_after(a.skip(comma_from(a, quoted) + 1), false),
    decreases a.len(),
{
    lemma_comma_bounds(a, quoted);
    assert((a + b)[0] == a[0]);
    if quoted || a[0] != ',' {
        let after = quoted_after(quoted, a[0]);
        lemma_comma_bounds(a.skip(1), after);
        lemma_comma_before(a.skip(1), b, after);
        assert((a + b).skip(1) =~= a.skip(1) + b);
        let comma = comma_from(a, quoted);
        assert(a.skip(1).skip(comma) =~= a.skip(comma + 1));
    }
}

proof fn lemma_no_open_comma(s: Seq<char>, quoted: bool)
    requires
        forall|k: int|
            0 <= k < s.len() && s[k] == ',' ==> #[trigger] state_after(s.take(k), quoted),
    ensures
        comma_from(s, quoted) == s.len(),
    decreases s.len(),
{
    if s.len() > 0 {
        assert(s.take(0) =~= seq![]);
        assert(state_after(s.take(0), quoted) == quoted);
        let after = quoted_after(quoted, s[0]);
        let rest = s.skip(1);
        assert forall|k: int| 0 <= k < rest.len() && rest[k] == ',' implies #[trigger] state_after(
            rest.take(k),
            after,
        ) by {
            assert(s[k + 1] == ',');
            assert(state_after(s.take(k + 1), quoted));
            assert(s.take(k + 1).skip(1) =~= rest.take(k));
            assert(s.take(k + 1)[0] == s[0]);
        }
        lemma_no_open_comma(rest, after);
    }
}

/// A quote opens a quoted part or closes it; nothing else does.
pub proof fn law_quotes_come_in_pairs(s: Seq<char>, c: char)
    ensures
        !state_after(Seq::<char>::empty(), false),
        state_after(s.push(c), false) == if c == '"' {
            !state_after(s, false)
        } else {
            state_after(s, false)
        },
{
    let tail = seq![c];
    assert(s + tail =~= s.push(c));
    lemma_state_append(s, tail, false);
    let before = state_after(s, false);
    assert(tail.skip(1) =~= seq![]);
    assert(state_after(tail.skip(1), quoted_after(before, c)) == quoted_after(before, c));
}

/// A list has an item for each stretch between commas outside quotes, without
/// the white space around it: a text without such commas is one item, and a
/// comma and another such text behind a list whose quotes are closed add one.
pub proof fn law_lists_are_cut_at_commas_outside_quotes(list: Seq<char>, item: Seq<char>)
    requires
        forall|k: int|
            0 <= k < item.len() && item[k] == ',' ==> #[trigger] state_after(item.take(k), false),
        !state_after(list, false),
    ensures
        list_items(item) == seq![text::trimmed(item)],
        list_items(list + seq![','] + item) == list_items(list).push(text::trimmed(item)),
    decreases list.len(),
{
    lemma_no_open_comma(item, false);
    lemma_comma_bounds(list, false);
    let comma = comma_from(list, false);
    let tail = seq![','] + item;
    let all = list + seq![','] + item;
    assert(all =~= list + tail);
    if comma < list.len() {
        let rest = list.skip(comma + 1);
        lemma_comma_before(list, tail, false);
        law_lists_are_cut_at_commas_outside_quotes(rest, item);
        assert(all.take(comma) =~= list.take(comma));
        assert(all.skip(comma + 1) =~= rest + seq![','] + item);
        assert(list_items(all) =~= list_items(list).push(text::trimmed(item)));
    } else {
        lemma_comma_behind(list, tail, false);
        assert(comma_from(tail, false) == 0);
        assert(all.take(comma) =~= list);
        assert(all.skip(comma + 1) =~= item);
        assert(list_items(item) =~= seq![text::trimmed(item)]);
        assert(comma_from(all, false) == comma && comma < all.len());
        assert(list_items(all) == seq![text::trimmed(list)] + list_items(item));
        assert(list_items(list) =~= seq![text::trimmed(list)]);
    }
}

/// A list matches a tag exactly if one of its items does that is an entity tag,
/// wherever in the list it stands: a list that is longer by one item matches
/// what the shorter one matches, and what that item does.
pub proof fn law_lists_match_what_their_items_match(
    list: Seq<char>,
    item: Seq<char>,
    etag: Seq<char>,
)
    requires
        forall|k: int|
            0 <= k < item.len() && item[k] == ',' ==> #[trigger] state_after(item.take(k), false),
        !state_after(list, false),
    ensures
        ({
            let longer = list + seq![','] + item;
            let last = text::trimmed(item);
            let is_tag = validators::is_entity_tag(last);
            &&& holds_tag(item) <==> is_tag
            &&& list_matches_strongly(item, etag) <==> is_tag && validators::tags_match_strongly(
                last,
                etag,
            )
            &&& list_matches_weakly(item, etag) <==> is_tag && validators::tags_match_weakly(
                last,
                etag,
            )
            &&& holds_tag(longer) <==> holds_tag(list) || holds_tag(item)
            &&& list_matches_strongly(longer, etag) <==> list_matches_strongly(list, etag)
                || list_matches_strongly(item, etag)
            &&& list_matches_weakly(longer, etag) <==> list_matches_weakly(list, etag)
                || list_matches_weakly(item, etag)
        }),
{
    law_lists_are_cut_at_commas_outside_quotes(list, item);
    let longer = list + seq![','] + item;
    let (few, many) = (list_items(list), list_items(longer));
    let last = text::trimmed(item);
    let n = few.len() as int;
    assert(list_items(item)[0] == last);
    assert(many[n] == last);
    assert forall|i: int| 0 <= i < n implies #[trigger] few[i] == many[i] by {}
    assert(holds_tag(item) <==> validators::is_entity_tag(last));
    if holds_tag(list) {
        let i = choose|i: int| 0 <= i < n && validators::is_entity_tag(#[trigger] few[i]);
        assert(validators::is_entity_tag(many[i]));
    }
    if holds_tag(longer) {
        let i = choose|i: int| 0 <= i <= n && validators::is_entity_tag(#[trigger] many[i]);
        assert(i < n ==> validators::is_entity_tag(few[i]));
    }
    if list_matches_strongly(list, etag) {
        let i = choose|i: int|
            0 <= i < n && validators::is_entity_tag(#[trigger] few[i])
                && validators::tags_match_strongly(few[i], etag);
        assert(validators::is_entity_tag(many[i]));
    }
    if list_matches_strongly(longer, etag) {
        let i = choose|i: int|
            0 <= i <= n && validators::is_entity_tag(#[trigger] many[i])
                && validators::tags_match_strongly(many[i], etag);
        assert(i < n ==> validators::is_entity_tag(few[i]));
    }
    if list_matches_weakly(list, etag) {
        let i = choose|i: int|
            0 <= i < n && validators::is_entity_tag(#[trigger] few[i])
                && validators::tags_match_weakly(few[i], etag);
        assert(validators::is_entity_tag(many[i]));
    }
    if list_matches_weakly(longer, etag) {
        let i = choose|i: int|
            0 <= i <= n && validators::is_entity_tag(#[trigger] many[i])
                && validators::tags_match_weakly(many[i], etag);
        assert(i < n ==> validators::is_entity_tag(few[i]));
    }
}

} // verus!
