//! The two things that a line of the extracted page text is searched for:
//! numbers in attributes, and text with its entities.
use crate::numeral;
use crate::single::Single;
use crate::text;
use vstd::prelude::*;
use vstd::slice::*;

verus! {

/// The number that stands between the first `key` in `s` and the next quote.
pub open spec fn attribute(s: Seq<char>, key: Seq<char>) -> Option<Single> {
    match text::found(s, key) {
        Some(i) => numeral::parsed(text::before(s.skip(i as int + key.len()), '"')),
        None => None,
    }
}

/// What stands for `<`.
pub open spec fn entity_lt() -> Seq<char> {
    seq!['&', 'l', 't', ';']
}

/// What stands for `>`.
pub open spec fn entity_gt() -> Seq<char> {
    seq!['&', 'g', 't', ';']
}

/// What stands for `"`.
pub open spec fn entity_quot() -> Seq<char> {
    seq!['&', 'q', 'u', 'o', 't', ';']
}

/// What stands for `'`.
pub open spec fn entity_39() -> Seq<char> {
    seq!['&', '#', '3', '9', ';']
}

/// What stands for `'`.
pub open spec fn entity_apos() -> Seq<char> {
    seq!['&', 'a', 'p', 'o', 's', ';']
}

/// What stands for `&`.
pub open spec fn entity_amp() -> Seq<char> {
    seq!['&', 'a', 'm', 'p', ';']
}

/// `s` with its entities turned into the characters that they stand for, the
/// ampersand last.
pub open spec fn unescaped(s: Seq<char>) -> Seq<char> {
    let a = text::replaced(s, entity_lt(), seq!['<']);
    let b = text::replaced(a, entity_gt(), seq!['>']);
    let c = text::replaced(b, entity_quot(), seq!['"']);
    let d = text::replaced(c, entity_39(), seq!['\'']);
    let e = text::replaced(d, entity_apos(), seq!['\'']);
    text::replaced(e, entity_amp(), seq!['&'])
}

/// The number that stands between the first `key` in `s` and the next quote.
pub fn attribute_of(s: &[char], key: &[char]) -> (r: Option<Single>)
    ensures
        r == attribute(s@, key@),
{
    let end = s.len();
    match text::find(s, key) {
        Some(i) => {
            let from: usize = i + key.len();
            let rest = slice_subrange(s, from, end);
            assert(rest@ =~= s@.skip(from as int));
            numeral::parse(text::part_before(rest, '"'))
        },
        None => None,
    }
}

/// The number in the attribute of `s` that `key` opens: what stands between
/// the first `key` and the next quote, if that is a numeral.
pub fn xml_attr(s: &str, key: &str) -> (r: Option<Single>)
    ensures
        r == attribute(s@, key@),
{
    let s = text::chars_of(s);
    let key = text::chars_of(key);
    attribute_of(s.as_slice(), key.as_slice())
}

/// `s` with its entities turned into the characters that they stand for.
pub fn unescape(s: &[char]) -> (r: Vec<char>)
    ensures
        r@ == unescaped(s@),
{
    let lt = ['&', 'l', 't', ';'];
    let gt = ['&', 'g', 't', ';'];
    let quot = ['&', 'q', 'u', 'o', 't', ';'];
    let number = ['&', '#', '3', '9', ';'];
    let apos = ['&', 'a', 'p', 'o', 's', ';'];
    let amp = ['&', 'a', 'm', 'p', ';'];
    assert(lt@ =~= entity_lt());
    assert(gt@ =~= entity_gt());
    assert(quot@ =~= entity_quot());
    assert(number@ =~= entity_39());
    assert(apos@ =~= entity_apos());
    assert(amp@ =~= entity_amp());
    let less = ['<'];
    let greater = ['>'];
    let quote = ['"'];
    let single_quote = ['\''];
    let ampersand = ['&'];
    assert(less@ =~= seq!['<']);
    assert(greater@ =~= seq!['>']);
    assert(quote@ =~= seq!['"']);
    assert(single_quote@ =~= seq!['\'']);
    assert(ampersand@ =~= seq!['&']);
    let a = text::replace(s, lt.as_slice(), less.as_slice());
    let b = text::replace(a.as_slice(), gt.as_slice(), greater.as_slice());
    let c = text::replace(b.as_slice(), quot.as_slice(), quote.as_slice());
    let d = text::replace(c.as_slice(), number.as_slice(), single_quote.as_slice());
    let e = text::replace(d.as_slice(), apos.as_slice(), single_quote.as_slice());
    text::replace(e.as_slice(), amp.as_slice(), ampersand.as_slice())
}

/// `s` with its entities turned into the characters that they stand for.
pub fn xml_unescape(s: &str) -> (r: String)
    ensures
        r@ == unescaped(s@),
{
    let s = text::chars_of(s);
    let r = unescape(s.as_slice());
    text::string_of(r.as_slice())
}

/// How `c` is written in markup; `named` tells which of the two ways of writing
/// an apostrophe is meant.
pub open spec fn escape(c: char, named: bool) -> Seq<char> {
    stage(0, c, named)
}

/// `s` as it is written in markup; `named` tells, character by character, how
/// an apostrophe is written.
pub open spec fn escaped(s: Seq<char>, named: Seq<bool>) -> Seq<char> {
    encoded(0, s, named)
}

/// What is left of the markup of `c` once the first `k` kinds of entities have
/// been resolved.
pub open spec fn stage(k: int, c: char, named: bool) -> Seq<char> {
    if c == '<' && k < 1 {
        entity_lt()
    } else if c == '>' && k < 2 {
        entity_gt()
    } else if c == '"' && k < 3 {
        entity_quot()
    } else if c == '\'' && !named && k < 4 {
        entity_39()
    } else if c == '\'' && named && k < 5 {
        entity_apos()
    } else if c == '&' && k < 6 {
        entity_amp()
    } else {
        seq![c]
    }
}

/// The same for a whole text.
pub open spec fn encoded(k: int, s: Seq<char>, named: Seq<bool>) -> Seq<char>
    decreases s.len(),
{
    if s.len() == 0 {
        s
    } else {
        stage(k, s[0], named[0]) + encoded(k, s.skip(1), named.skip(1))
    }
}

/// Where there is no ampersand, nothing is replaced.
proof fn lemma_plain(piece: Seq<char>, rest: Seq<char>, from: Seq<char>, to: Seq<char>)
    requires
        from.len() > 0,
        from[0] == '&',
        forall|i: int| 0 <= i < piece.len() ==> piece[i] != '&',
    ensures
        text::replaced(piece + rest, from, to) == piece + text::replaced(rest, from, to),
    decreases piece.len(),
{
    let all = piece + rest;
    if piece.len() == 0 {
        assert(all =~= rest);
        assert(piece + text::replaced(rest, from, to) =~= text::replaced(rest, from, to));
    } else {
        if from.is_prefix_of(all) {
            assert(from[0] == all[0]);
            assert(all[0] == piece[0]);
        }
        assert(all.skip(1) =~= piece.skip(1) + rest);
        lemma_plain(piece.skip(1), rest, from, to);
        assert(seq![all[0]] + (piece.skip(1) + text::replaced(rest, from, to)) =~= piece
            + text::replaced(rest, from, to));
    }
}

/// An entity other than `from` stays.
proof fn lemma_other(piece: Seq<char>, rest: Seq<char>, from: Seq<char>, to: Seq<char>, j: int)
    requires
        from.len() > 0,
        from[0] == '&',
        piece.len() > 0,
        forall|i: int| 0 < i < piece.len() ==> piece[i] != '&',
        0 <= j < piece.len(),
        j < from.len(),
        piece[j] != from[j],
    ensures
        text::replaced(piece + rest, from, to) == piece + text::replaced(rest, from, to),
{
    let all = piece + rest;
    if from.is_prefix_of(all) {
        assert(from[j] == all[j]);
        assert(all[j] == piece[j]);
    }
    assert(all.skip(1) =~= piece.skip(1) + rest);
    lemma_plain(piece.skip(1), rest, from, to);
    assert(seq![all[0]] + (piece.skip(1) + text::replaced(rest, from, to)) =~= piece
        + text::replaced(rest, from, to));
}

/// One kind of entity is resolved, and no other.
proof fn lemma_resolved(
    k: int,
    s: Seq<char>,
    named: Seq<bool>,
    from: Seq<char>,
    to: Seq<char>,
)
    requires
        0 <= k < 6,
        k == 0 ==> from == entity_lt() && to == seq!['<'],
        k == 1 ==> from == entity_gt() && to == seq!['>'],
        k == 2 ==> from == entity_quot() && to == seq!['"'],
        k == 3 ==> from == entity_39() && to == seq!['\''],
        k == 4 ==> from == entity_apos() && to == seq!['\''],
        k == 5 ==> from == entity_amp() && to == seq!['&'],
    ensures
        text::replaced(encoded(k, s, named), from, to) == encoded(k + 1, s, named),
    decreases s.len(),
{
    if s.len() > 0 {
        let piece = stage(k, s[0], named[0]);
        let rest = encoded(k, s.skip(1), named.skip(1));
        lemma_resolved(k, s.skip(1), named.skip(1), from, to);
        if piece == from {
            assert(from.is_prefix_of(piece + rest)) by {
                assert((piece + rest).subrange(0, from.len() as int) =~= from);
            }
            assert((piece + rest).skip(from.len() as int) =~= rest);
            assert(stage(k + 1, s[0], named[0]) == to);
        } else {
            let j: int = if piece.len() == 1 {
                0
            } else if piece[1] != from[1] {
                1
            } else {
                2
            };
            lemma_other(piece, rest, from, to, j);
            assert(stage(k + 1, s[0], named[0]) == piece);
        }
    }
}

/// A text from which all kinds of entities have been resolved is the text that
/// was written.
proof fn lemma_all_resolved(s: Seq<char>, named: Seq<bool>)
    ensures
        encoded(6, s, named) == s,
    decreases s.len(),
{
    if s.len() > 0 {
        lemma_all_resolved(s.skip(1), named.skip(1));
        assert(seq![s[0]] + s.skip(1) =~= s);
    }
}

/// Reading takes back writing: whatever the text, and whichever way each of its
/// apostrophes is written, resolving the entities of its markup gives the text.
pub proof fn unescaping_undoes_escaping(s: Seq<char>, named: Seq<bool>)
    ensures
        unescaped(escaped(s, named)) == s,
{
    lemma_resolved(0, s, named, entity_lt(), seq!['<']);
    lemma_resolved(1, s, named, entity_gt(), seq!['>']);
    lemma_resolved(2, s, named, entity_quot(), seq!['"']);
    lemma_resolved(3, s, named, entity_39(), seq!['\'']);
    lemma_resolved(4, s, named, entity_apos(), seq!['\'']);
    lemma_resolved(5, s, named, entity_amp(), seq!['&']);
    lemma_all_resolved(s, named);
}

/// A text without an ampersand has no entities to resolve.
pub proof fn plain_text_is_kept(s: Seq<char>)
    requires
        forall|i: int| 0 <= i < s.len() ==> s[i] != '&',
    ensures
        unescaped(s) == s,
{
    let none = Seq::<char>::empty();
    assert(s + none =~= s);
    lemma_plain(s, none, entity_lt(), seq!['<']);
    lemma_plain(s, none, entity_gt(), seq!['>']);
    lemma_plain(s, none, entity_quot(), seq!['"']);
    lemma_plain(s, none, entity_39(), seq!['\'']);
    lemma_plain(s, none, entity_apos(), seq!['\'']);
    lemma_plain(s, none, entity_amp(), seq!['&']);
}

/// The six entities, letter by letter.
pub proof fn the_entities()
    ensures
        entity_lt() == seq!['&', 'l', 't', ';'],
        entity_gt() == seq!['&', 'g', 't', ';'],
        entity_quot() == seq!['&', 'q', 'u', 'o', 't', ';'],
        entity_39() == seq!['&', '#', '3', '9', ';'],
        entity_apos() == seq!['&', 'a', 'p', 'o', 's', ';'],
        entity_amp() == seq!['&', 'a', 'm', 'p', ';'],
{
}

/// A replaced text begins with a piece only if the text did, if the piece holds
/// neither an ampersand nor what is put in.
proof fn lemma_no_new_piece(piece: Seq<char>, t: Seq<char>, from: Seq<char>, c: char)
    requires
        from.len() > 0,
        from[0] == '&',
        forall|i: int| 0 <= i < piece.len() ==> piece[i] != '&' && piece[i] != c,
        piece.is_prefix_of(text::replaced(t, from, seq![c])),
    ensures
        piece.is_prefix_of(t),
    decreases piece.len(),
{
    let r = text::replaced(t, from, seq![c]);
    if piece.len() == 0 {
        assert(t.subrange(0, 0) =~= piece);
    } else {
        assert(r.subrange(0, piece.len() as int)[0] == piece[0]);
        assert(r[0] == piece[0]);
        assert(t.len() > 0);
        if from.is_prefix_of(t) {
            assert(r[0] == c);
        } else {
            let rest = text::replaced(t.skip(1), from, seq![c]);
            assert(r[0] == t[0]);
            assert(r.skip(1) =~= rest);
            let p = piece.skip(1);
            assert(p =~= rest.subrange(0, p.len() as int)) by {
                assert forall|i: int| 0 <= i < p.len() implies p[i] == rest.subrange(
                    0,
                    p.len() as int,
                )[i] by {
                    assert(p[i] == piece[i + 1]);
                    assert(piece[i + 1] == r.subrange(0, piece.len() as int)[i + 1]);
                    assert(rest[i] == r[i + 1]);
                }
            }
            lemma_no_new_piece(p, t.skip(1), from, c);
            assert(piece =~= t.subrange(0, piece.len() as int)) by {
                assert forall|i: int| 0 <= i < piece.len() implies piece[i] == t.subrange(
                    0,
                    piece.len() as int,
                )[i] by {
                    if i > 0 {
                        assert(p[i - 1] == t.skip(1).subrange(0, p.len() as int)[i - 1]);
                    }
                }
            }
        }
    }
}

/// An ampersand that begins no `entity` begins none after another replacement.
proof fn lemma_no_new_entity(entity: Seq<char>, t: Seq<char>, from: Seq<char>, c: char)
    requires
        from.len() > 0,
        from[0] == '&',
        entity.len() > 0,
        entity[0] == '&',
        forall|i: int| 0 < i < entity.len() ==> entity[i] != '&' && entity[i] != c,
        !entity.is_prefix_of(seq!['&'] + t),
    ensures
        !entity.is_prefix_of(seq!['&'] + text::replaced(t, from, seq![c])),
{
    let r = text::replaced(t, from, seq![c]);
    let all = seq!['&'] + r;
    if entity.is_prefix_of(all) {
        let p = entity.skip(1);
        assert(p =~= r.subrange(0, p.len() as int)) by {
            assert forall|i: int| 0 <= i < p.len() implies p[i] == r.subrange(
                0,
                p.len() as int,
            )[i] by {
                assert(entity[i + 1] == all.subrange(0, entity.len() as int)[i + 1]);
            }
        }
        lemma_no_new_piece(p, t, from, c);
        let before = seq!['&'] + t;
        assert(entity =~= before.subrange(0, entity.len() as int)) by {
            assert forall|i: int| 0 <= i < entity.len() implies entity[i] == before.subrange(
                0,
                entity.len() as int,
            )[i] by {
                if i > 0 {
                    assert(p[i - 1] == t.subrange(0, p.len() as int)[i - 1]);
                }
            }
        }
    }
}

/// A lone ampersand stays, and the replacement goes on behind it.
proof fn lemma_lone(t: Seq<char>, from: Seq<char>, to: Seq<char>)
    requires
        from.len() > 0,
        !from.is_prefix_of(seq!['&'] + t),
    ensures
        text::replaced(seq!['&'] + t, from, to) == seq!['&'] + text::replaced(t, from, to),
{
    assert((seq!['&'] + t).skip(1) =~= t);
}

/// The entity at the beginning of a text gives way, and any other stays.
proof fn lemma_first_entity(entity: Seq<char>, t: Seq<char>, from: Seq<char>, to: Seq<char>, j: int)
    requires
        from.len() > 0,
        from[0] == '&',
        entity.len() > 0,
        forall|i: int| 0 < i < entity.len() ==> entity[i] != '&',
        entity != from ==> 0 <= j < entity.len() && j < from.len() && entity[j] != from[j],
    ensures
        entity == from ==> text::replaced(entity + t, from, to) == to + text::replaced(t, from, to),
        entity != from ==> text::replaced(entity + t, from, to) == entity + text::replaced(
            t,
            from,
            to,
        ),
{
    if entity == from {
        assert(from.is_prefix_of(entity + t)) by {
            assert((entity + t).subrange(0, from.len() as int) =~= from);
        }
        assert((entity + t).skip(from.len() as int) =~= t);
    } else {
        lemma_other(entity, t, from, to, j);
    }
}

/// Where two entities differ.
spec fn differ(a: Seq<char>, b: Seq<char>) -> int {
    if a[1] != b[1] {
        1
    } else {
        2
    }
}

/// Entities are resolved as if all at once, from the left, whatever follows:
/// each of the six, where it stands, becomes the character that it stands for.
pub proof fn an_entity_becomes_its_character(entity: Seq<char>, c: char, t: Seq<char>)
    requires
        ({
            ||| entity == seq!['&', 'l', 't', ';'] && c == '<'
            ||| entity == seq!['&', 'g', 't', ';'] && c == '>'
            ||| entity == seq!['&', 'q', 'u', 'o', 't', ';'] && c == '"'
            ||| entity == seq!['&', '#', '3', '9', ';'] && c == '\''
            ||| entity == seq!['&', 'a', 'p', 'o', 's', ';'] && c == '\''
            ||| entity == seq!['&', 'a', 'm', 'p', ';'] && c == '&'
        }),
    ensures
        unescaped(entity + t) == seq![c] + unescaped(t),
{
    let t1 = text::replaced(t, entity_lt(), seq!['<']);
    let t2 = text::replaced(t1, entity_gt(), seq!['>']);
    let t3 = text::replaced(t2, entity_quot(), seq!['"']);
    let t4 = text::replaced(t3, entity_39(), seq!['\'']);
    let t5 = text::replaced(t4, entity_apos(), seq!['\'']);
    let d = seq![c];
    if entity == entity_lt() {
        lemma_first_entity(entity, t, entity_lt(), seq!['<'], 1);
        lemma_kept(d, t1, t2, t3, t4, t5);
    } else {
        lemma_first_entity(entity, t, entity_lt(), seq!['<'], differ(entity, entity_lt()));
        if entity == entity_gt() {
            lemma_first_entity(entity, t1, entity_gt(), seq!['>'], 1);
            lemma_kept(d, t1, t2, t3, t4, t5);
        } else {
            lemma_first_entity(entity, t1, entity_gt(), seq!['>'], differ(entity, entity_gt()));
            if entity == entity_quot() {
                lemma_first_entity(entity, t2, entity_quot(), seq!['"'], 1);
                lemma_kept(d, t1, t2, t3, t4, t5);
            } else {
                lemma_first_entity(
                    entity,
                    t2,
                    entity_quot(),
                    seq!['"'],
                    differ(entity, entity_quot()),
                );
                if entity == entity_39() {
                    lemma_first_entity(entity, t3, entity_39(), seq!['\''], 1);
                    lemma_kept(d, t1, t2, t3, t4, t5);
                } else {
                    lemma_first_entity(
                        entity,
                        t3,
                        entity_39(),
                        seq!['\''],
                        differ(entity, entity_39()),
                    );
                    if entity == entity_apos() {
                        lemma_first_entity(entity, t4, entity_apos(), seq!['\''], 1);
                        lemma_kept(d, t1, t2, t3, t4, t5);
                    } else {
                        lemma_first_entity(
                            entity,
                            t4,
                            entity_apos(),
                            seq!['\''],
                            differ(entity, entity_apos()),
                        );
                        lemma_first_entity(entity, t5, entity_amp(), seq!['&'], 1);
                    }
                }
            }
        }
    }
}

/// A character other than the ampersand is kept by the replacements.
proof fn lemma_kept(
    d: Seq<char>,
    t1: Seq<char>,
    t2: Seq<char>,
    t3: Seq<char>,
    t4: Seq<char>,
    t5: Seq<char>,
)
    requires
        d.len() == 1,
        d[0] != '&',
        t2 == text::replaced(t1, entity_gt(), seq!['>']),
        t3 == text::replaced(t2, entity_quot(), seq!['"']),
        t4 == text::replaced(t3, entity_39(), seq!['\'']),
        t5 == text::replaced(t4, entity_apos(), seq!['\'']),
    ensures
        text::replaced(d + t1, entity_gt(), seq!['>']) == d + t2,
        text::replaced(d + t2, entity_quot(), seq!['"']) == d + t3,
        text::replaced(d + t3, entity_39(), seq!['\'']) == d + t4,
        text::replaced(d + t4, entity_apos(), seq!['\'']) == d + t5,
        text::replaced(d + t5, entity_amp(), seq!['&']) == d + text::replaced(
            t5,
            entity_amp(),
            seq!['&'],
        ),
{
    lemma_plain(d, t1, entity_gt(), seq!['>']);
    lemma_plain(d, t2, entity_quot(), seq!['"']);
    lemma_plain(d, t3, entity_39(), seq!['\'']);
    lemma_plain(d, t4, entity_apos(), seq!['\'']);
    lemma_plain(d, t5, entity_amp(), seq!['&']);
}

/// Where no entity begins, the character stays, be it an ampersand or not, and
/// the rest is resolved behind it.
pub proof fn what_begins_no_entity_stays(s: Seq<char>)
    requires
        s.len() > 0,
        !seq!['&', 'l', 't', ';'].is_prefix_of(s),
        !seq!['&', 'g', 't', ';'].is_prefix_of(s),
        !seq!['&', 'q', 'u', 'o', 't', ';'].is_prefix_of(s),
        !seq!['&', '#', '3', '9', ';'].is_prefix_of(s),
        !seq!['&', 'a', 'p', 'o', 's', ';'].is_prefix_of(s),
        !seq!['&', 'a', 'm', 'p', ';'].is_prefix_of(s),
    ensures
        unescaped(s) == seq![s[0]] + unescaped(s.skip(1)),
{
    let t = s.skip(1);
    assert(s =~= seq![s[0]] + t);
    let t1 = text::replaced(t, entity_lt(), seq!['<']);
    let t2 = text::replaced(t1, entity_gt(), seq!['>']);
    let t3 = text::replaced(t2, entity_quot(), seq!['"']);
    let t4 = text::replaced(t3, entity_39(), seq!['\'']);
    let t5 = text::replaced(t4, entity_apos(), seq!['\'']);
    if s[0] != '&' {
        lemma_plain(seq![s[0]], t, entity_lt(), seq!['<']);
        lemma_kept(seq![s[0]], t1, t2, t3, t4, t5);
    } else {
        lemma_lone(t, entity_lt(), seq!['<']);
        lemma_no_new_entity(entity_gt(), t, entity_lt(), '<');
        lemma_no_new_entity(entity_quot(), t, entity_lt(), '<');
        lemma_no_new_entity(entity_39(), t, entity_lt(), '<');
        lemma_no_new_entity(entity_apos(), t, entity_lt(), '<');
        lemma_no_new_entity(entity_amp(), t, entity_lt(), '<');
        lemma_lone(t1, entity_gt(), seq!['>']);
        lemma_no_new_entity(entity_quot(), t1, entity_gt(), '>');
        lemma_no_new_entity(entity_39(), t1, entity_gt(), '>');
        lemma_no_new_entity(entity_apos(), t1, entity_gt(), '>');
        lemma_no_new_entity(entity_amp(), t1, entity_gt(), '>');
        lemma_lone(t2, entity_quot(), seq!['"']);
        lemma_no_new_entity(entity_39(), t2, entity_quot(), '"');
        lemma_no_new_entity(entity_apos(), t2, entity_quot(), '"');
        lemma_no_new_entity(entity_amp(), t2, entity_quot(), '"');
        lemma_lone(t3, entity_39(), seq!['\'']);
        lemma_no_new_entity(entity_apos(), t3, entity_39(), '\'');
        lemma_no_new_entity(entity_amp(), t3, entity_39(), '\'');
        lemma_lone(t4, entity_apos(), seq!['\'']);
        lemma_no_new_entity(entity_amp(), t4, entity_apos(), '\'');
        lemma_lone(t5, entity_amp(), seq!['&']);
    }
}

/// Nothing stays nothing.
pub proof fn an_empty_text_stays_empty()
    ensures
        unescaped(Seq::<char>::empty()) == Seq::<char>::empty(),
{
}

/// An attribute is the numeral between the first key and the quote behind it,
/// or the end of the text; there is none if the key stands nowhere.
pub proof fn an_attribute_stands_behind_its_first_key(
    p: Seq<char>,
    key: Seq<char>,
    n: Seq<char>,
    q: Seq<char>,
)
    requires
        forall|j: int|
            0 <= j < p.len() ==> !key.is_prefix_of(#[trigger] (p + (key + (n + q))).skip(j)),
        forall|i: int| 0 <= i < n.len() ==> n[i] != '"',
        q.len() > 0 ==> q[0] == '"',
    ensures
        attribute(p + (key + (n + q)), key) == numeral::parsed(n),
{
    let tail = key + (n + q);
    let s = p + tail;
    text::a_key_is_found_where_it_first_stands(s, key);
    assert(s.skip(p.len() as int) =~= tail);
    assert(key.is_prefix_of(tail)) by {
        assert(tail.subrange(0, key.len() as int) =~= key);
    }
    let i = text::found(s, key)->0;
    if i < p.len() {
        assert(key.is_prefix_of(s.skip(i as int))) by {
            assert(s.skip(i as int).subrange(0, key.len() as int) =~= s.subrange(
                i as int,
                i as int + key.len(),
            ));
        }
    }
    assert(i == p.len());
    assert(s.skip(i as int + key.len()) =~= n + q);
    if q.len() > 0 {
        text::the_first_character_of_its_kind(n, q.skip(1), '"');
        assert(seq!['"'] + q.skip(1) =~= q);
    } else {
        text::the_first_character_of_its_kind(n, q, '"');
        assert(n + q =~= n);
    }
}

/// Without its key there is no attribute.
pub proof fn no_attribute_without_its_key(s: Seq<char>, key: Seq<char>)
    requires
        forall|j: int| 0 <= j <= s.len() ==> !key.is_prefix_of(#[trigger] s.skip(j)),
    ensures
        attribute(s, key) is None,
{
    text::a_key_is_found_where_it_first_stands(s, key);
    if let Some(i) = text::found(s, key) {
        assert(s.skip(i as int).subrange(0, key.len() as int) =~= s.subrange(
            i as int,
            i as int + key.len(),
        ));
        assert(key.is_prefix_of(s.skip(i as int)));
    }
}

} // verus!
