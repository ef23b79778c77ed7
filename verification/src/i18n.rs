//! Device-selected language, with English fallback and a shared Spanish catalog.

use vstd::prelude::*;
use crate::feedback::{opt_text, Feedback, Notice, NoticeModel};
use crate::game::{AchievementView, Profile, QuestView};
use crate::inbox::Notification;
use crate::order::ascending;
use crate::pieces::{after_prefix, before_suffix, contains, ends_with, find_from, holds, parse_number, replace, replaced, rsplit_once, shown_number, split, split_by, split_first, split_last, split_once, strip_prefix, strip_suffix};
use crate::preferences::Refusal;
use crate::ranking::{place, ranked};
use crate::store::{Store, StoreModel};
use crate::table::{find_key, kept, put, put_for, rows, value_for};
use crate::text::{characters, is_white, join, joined, joined_by, same, slice_text, texts, trim, trimmed, white};

verus! {

/// What a language tag begins with, up to a hyphen or an underscore.
pub open spec fn tag_head(tag: Seq<char>) -> Seq<char>
    decreases tag.len(),
{
    if tag.len() == 0 || tag[0] == '-' || tag[0] == '_' {
        Seq::empty()
    } else {
        seq![tag[0]] + tag_head(tag.skip(1))
    }
}

/// Whether a language tag is one of Spanish, in whatever case.
pub open spec fn is_spanish(tag: Seq<char>) -> bool {
    let head = tag_head(tag);
    head.len() == 2 && (head[0] == 'e' || head[0] == 'E') && (head[1] == 's' || head[1] == 'S')
}

/// The language that is spoken for a tag: Spanish, or else English.
pub open spec fn normalized(tag: Seq<char>) -> Seq<char> {
    if is_spanish(tag) {
        "es"@
    } else {
        "en"@
    }
}

fn head_len(v: &Vec<char>) -> (res: usize)
    ensures
        res <= v@.len(),
        tag_head(v@) == v@.take(res as int),
{
    let mut i: usize = 0;
    assert(v@.skip(0) =~= v@);
    assert(v@.take(0) + tag_head(v@.skip(0)) =~= tag_head(v@));
    while i < v.len() && v[i] != '-' && v[i] != '_'
        invariant
            i <= v@.len(),
            v@.take(i as int) + tag_head(v@.skip(i as int)) == tag_head(v@),
        decreases v@.len() - i,
    {
        proof {
            let rest = v@.skip(i as int);
            assert(rest[0] == v@[i as int]);
            assert(rest.skip(1) =~= v@.skip(i + 1));
            assert(v@.take(i + 1) + tag_head(v@.skip(i + 1)) =~= v@.take(i as int) + (seq![v@[i as int]] + tag_head(
                v@.skip(i + 1),
            )));
        }
        i = i + 1;
    }
    assert(v@.take(i as int) + Seq::<char>::empty() =~= v@.take(i as int));
    i
}

/// The language that is spoken for a tag.
pub fn normalize(language: &str) -> (res: &'static str)
    ensures
        res@ == normalized(language@),
{
    let v = characters(language);
    let n: usize = head_len(&v);
    if n == 2 && (v[0] == 'e' || v[0] == 'E') && (v[1] == 's' || v[1] == 'S') {
        "es"
    } else {
        "en"
    }
}

/// Whether a language is Spanish.
fn speaks_spanish(language: &str) -> (res: bool)
    ensures
        res == is_spanish(language@),
{
    proof {
        reveal_strlit("es");
        reveal_strlit("en");
        assert("es"@[1] != "en"@[1]);
    }
    same(normalize(language), "es")
}

/// The language of a player.
pub open spec fn language_of(m: StoreModel, user: Seq<char>) -> Seq<char> {
    match value_for(m.languages, user) {
        Some(language) => language,
        None => "en"@,
    }
}

/// What is stored when a player has chosen a language.
pub open spec fn language_set(m: StoreModel, user: Seq<char>, tag: Seq<char>) -> StoreModel {
    StoreModel { languages: put_for(m.languages, user, normalized(tag)), ..m }
}

impl Store {
    /// The language of a player.
    pub fn language(&self, user: &str) -> (res: String)
        ensures
            res@ == language_of(self@, user@),
    {
        match find_key(&self.languages, user) {
            Some(i) => {
                assert(self@.languages[i as int].1 == self.languages@[i as int].1@);
                self.languages[i].1.clone()
            },
            None => "en".to_owned(),
        }
    }

    /// Save the language of a player.
    pub fn set_language(&mut self, user: &str, language: &str)
        ensures
            final(self)@ == language_set(old(self)@, user@, language@),
            old(self).wf() ==> final(self).wf(),
    {
        let ghost before = self@;
        put(&mut self.languages, user, normalize(language).to_owned());
        assert(self@ =~= language_set(before, user@, language@));
    }
}

/// A saved language is the one that is spoken for it, and belongs to one
/// player.
pub proof fn law_a_language_belongs_to_one_player(m: StoreModel, user: Seq<char>, tag: Seq<char>, other: Seq<char>)
    ensures
        language_of(language_set(m, user, tag), user) == normalized(tag),
        other != user ==> language_of(language_set(m, user, tag), other) == language_of(m, other),
{
    crate::table::law_put_is_found(m.languages, user, normalized(tag), other);
}

/// What the languages that a client accepts begin with, up to a comma or a
/// semicolon.
pub open spec fn first_accepted(accepted: Seq<char>) -> Seq<char>
    decreases accepted.len(),
{
    if accepted.len() == 0 || accepted[0] == ',' || accepted[0] == ';' {
        Seq::empty()
    } else {
        seq![accepted[0]] + first_accepted(accepted.skip(1))
    }
}

fn accepted_len(v: &Vec<char>) -> (res: usize)
    ensures
        res <= v@.len(),
        first_accepted(v@) == v@.take(res as int),
{
    let mut i: usize = 0;
    assert(v@.skip(0) =~= v@);
    assert(v@.take(0) + first_accepted(v@.skip(0)) =~= first_accepted(v@));
    while i < v.len() && v[i] != ',' && v[i] != ';'
        invariant
            i <= v@.len(),
            v@.take(i as int) + first_accepted(v@.skip(i as int)) == first_accepted(v@),
        decreases v@.len() - i,
    {
        proof {
            let rest = v@.skip(i as int);
            assert(rest[0] == v@[i as int]);
            assert(rest.skip(1) =~= v@.skip(i + 1));
            assert(v@.take(i + 1) + first_accepted(v@.skip(i + 1)) =~= v@.take(i as int) + (seq![v@[i as int]]
                + first_accepted(v@.skip(i + 1))));
        }
        i = i + 1;
    }
    assert(v@.take(i as int) + Seq::<char>::empty() =~= v@.take(i as int));
    i
}

/// The language of a request: the first that the client accepts, or the
/// player's own.
pub open spec fn selected_language(accepted: Option<Seq<char>>, m: StoreModel, user: Seq<char>) -> Seq<char> {
    match accepted {
        Some(value) => normalized(trimmed(first_accepted(value))),
        None => language_of(m, user),
    }
}

/// An optional text, as it is seen.
pub open spec fn str_view(text: Option<&str>) -> Option<Seq<char>> {
    match text {
        Some(t) => Some(t@),
        None => None,
    }
}

/// The language of a request.
pub fn selected(accepted: Option<&str>, store: &Store, user: &str) -> (res: String)
    ensures
        res@ == selected_language(str_view(accepted), store@, user@),
{
    match accepted {
        Some(value) => {
            let v = characters(value);
            let n: usize = accepted_len(&v);
            assert(v@.subrange(0, n as int) =~= v@.take(n as int));
            let head = slice_text(&v, 0, n);
            let tag = trim(head.as_str());
            normalize(tag.as_str()).to_owned()
        },
        None => store.language(user),
    }
}

/// Call only after authenticating the owner. Public profile views never change preferences.
pub fn owned(accepted: Option<&str>, store: &mut Store, user: &str) -> (res: String)
    ensures
        res@ == selected_language(str_view(accepted), old(store)@, user@),
        final(store)@ == (match accepted {
            Some(_) => language_set(old(store)@, user@, res@),
            None => old(store)@,
        }),
        old(store).wf() ==> final(store).wf(),
{
    let language = selected(accepted, store, user);
    if accepted.is_some() {
        store.set_language(user, language.as_str());
    }
    language
}

/// Whether a character may stand in a language tag.
pub open spec fn is_tag_char(c: char) -> bool {
    ('0' <= c && c <= '9') || ('A' <= c && c <= 'Z') || ('a' <= c && c <= 'z') || c == '-' || c == '_'
}

/// Whether a text is a language tag.
pub open spec fn is_tag(tag: Seq<char>) -> bool {
    1 <= tag.len() <= 64 && forall|i: int| 0 <= i < tag.len() ==> is_tag_char(#[trigger] tag[i])
}

/// Save the language that a player asks for, and tell which one that is.
pub fn set_preference(store: &mut Store, user: &str, language: &str) -> (res: Result<String, Refusal>)
    ensures
        match res {
            Ok(spoken) => is_tag(language@) && spoken@ == normalized(language@) && final(store)@ == language_set(
                old(store)@,
                user@,
                normalized(language@),
            ),
            Err(refusal) => refusal == Refusal::BadRequest && !is_tag(language@) && final(store)@ == old(store)@,
        },
        old(store).wf() ==> final(store).wf(),
{
    let v = characters(language);
    if v.len() == 0 || v.len() > 64 {
        return Err(Refusal::BadRequest);
    }
    let mut i: usize = 0;
    while i < v.len()
        invariant
            v@ == language@,
            *store == *old(store),
            i <= v@.len() <= 64,
            forall|k: int| 0 <= k < i ==> is_tag_char(#[trigger] language@[k]),
        decreases v@.len() - i,
    {
        let c = v[i];
        if !(('0' <= c && c <= '9') || ('A' <= c && c <= 'Z') || ('a' <= c && c <= 'z') || c == '-' || c == '_') {
            assert(!is_tag_char(language@[i as int]));
            return Err(Refusal::BadRequest);
        }
        i = i + 1;
    }
    let spoken = normalize(language);
    store.set_language(user, spoken);
    Ok(spoken.to_owned())
}

/// What `serde_json` reads a text as, taken as a map from texts to texts: its
/// entries in the order of their keys, or nothing where it is not one.
pub uninterp spec fn json_texts(json: Seq<char>) -> Option<Seq<(Seq<char>, Seq<char>)>>;

/// The keys of some entries.
pub open spec fn keys_of(entries: Seq<(Seq<char>, Seq<char>)>) -> Seq<Seq<char>> {
    entries.map_values(|e: (Seq<char>, Seq<char>)| e.0)
}

/// `serde_json::from_str` reads a map from texts to texts, which depends on the
/// text alone. `std::collections::BTreeMap` hands its entries out in the order
/// of their keys, each key once.
#[verifier::external_body]
fn read_texts(json: &str) -> (res: Option<Vec<(String, String)>>)
    ensures
        match res {
            Some(entries) => json_texts(json@) == Some(rows(entries@)),
            None => json_texts(json@) is None,
        },
        res matches Some(entries) ==> ascending(keys_of(rows(entries@))),
{
    let map = serde_json::from_str::<std::collections::BTreeMap<String, String>>(json).ok()?;
    Some(map.into_iter().collect())
}

/// A catalog of translations, as text.
#[verifier::ext_equal]
pub struct CatalogModel {
    pub entries: Seq<(Seq<char>, Seq<char>)>,
    pub templates: Seq<(Seq<char>, Seq<char>)>,
}

/// A catalog of translations: whole texts, and among them templates, the more
/// specific ones first.
#[derive(Clone, Debug)]
pub struct Catalog {
    pub entries: Vec<(String, String)>,
    pub templates: Vec<(String, String)>,
}

impl View for Catalog {
    type V = CatalogModel;

    open spec fn view(&self) -> CatalogModel {
        CatalogModel { entries: rows(self.entries@), templates: rows(self.templates@) }
    }
}

/// How much of a piece of a template is written out: what follows the
/// placeholder at its beginning, in bytes.
pub open spec fn piece_weight(piece: Seq<char>) -> int {
    match split_first(piece, "}"@) {
        Some((_, suffix)) => vstd::utf8::encode_utf8(suffix).len() as int,
        None => 0,
    }
}

/// How much of some pieces of a template is written out.
pub open spec fn pieces_weight(pieces: Seq<Seq<char>>) -> int
    decreases pieces.len(),
{
    if pieces.len() == 0 {
        0
    } else {
        pieces_weight(pieces.drop_last()) + piece_weight(pieces.last())
    }
}

/// How much of a template is written out, in bytes.
pub open spec fn weight(template: Seq<char>) -> int {
    let pieces = split_by(template, "{"@);
    vstd::utf8::encode_utf8(pieces[0]).len() + pieces_weight(pieces.skip(1))
}

/// Whether an entry is a template.
pub open spec fn is_template() -> spec_fn((Seq<char>, Seq<char>)) -> bool {
    |e: (Seq<char>, Seq<char>)| holds(e.0, "{0}"@)
}

/// A broad template must not capture what a more specific one says.
pub open spec fn more_specific() -> spec_fn((Seq<char>, Seq<char>), (Seq<char>, Seq<char>)) -> bool {
    |a: (Seq<char>, Seq<char>), b: (Seq<char>, Seq<char>)| weight(a.0) > weight(b.0)
}

/// The templates among some entries, the more specific ones first.
pub open spec fn templates_of(entries: Seq<(Seq<char>, Seq<char>)>) -> Seq<(Seq<char>, Seq<char>)> {
    ranked(kept(entries, is_template()), more_specific())
}

fn byte_len(s: &str) -> (res: usize)
    ensures
        res == vstd::utf8::encode_utf8(s@).len(),
{
    s.as_bytes().len()
}

fn template_weight(template: &str) -> (res: u128)
    ensures
        res == weight(template@),
{
    proof {
        reveal_strlit("{");
        reveal_strlit("}");
    }
    let pieces = split(template, "{");
    let n: usize = pieces.len();
    let ghost all = texts(pieces@);
    let ghost tail = all.skip(1);
    assert(all[0] == pieces@[0]@);
    let mut sum: u128 = byte_len(pieces[0].as_str()) as u128;
    let mut i: usize = 1;
    assert(tail.take(0) =~= Seq::<Seq<char>>::empty());
    while i < pieces.len()
        invariant
            1 <= i <= pieces@.len() == n,
            all == texts(pieces@),
            tail == all.skip(1),
            sum == vstd::utf8::encode_utf8(all[0]).len() + pieces_weight(tail.take(i - 1)),
            0 <= sum <= i * (usize::MAX as int),
        decreases pieces@.len() - i,
    {
        proof {
            assert(tail.take(i as int).drop_last() =~= tail.take(i - 1));
            assert(tail.take(i as int).last() == pieces@[i as int]@);
            assert(i * (usize::MAX as int) + usize::MAX == (i + 1) * (usize::MAX as int)) by (nonlinear_arith);
            assert((i + 1) * (usize::MAX as int) <= usize::MAX * usize::MAX) by (nonlinear_arith)
                requires
                    i + 1 <= n <= usize::MAX,
                    0 <= i,
            ;
            assert(usize::MAX * usize::MAX <= u128::MAX) by (nonlinear_arith)
                requires
                    0 <= usize::MAX <= 0xffff_ffff_ffff_ffff,
            ;
        }
        if let Some((_, suffix)) = split_once(pieces[i].as_str(), "}") {
            sum = sum + byte_len(suffix.as_str()) as u128;
        }
        i = i + 1;
    }
    assert(tail.take(i - 1) =~= tail);
    sum
}

/// The templates among some entries, the more specific ones first.
pub fn templates(entries: &Vec<(String, String)>) -> (res: Vec<(String, String)>)
    ensures
        rows(res@) == templates_of(rows(entries@)),
{
    let ghost all = rows(entries@);
    let mut list: Vec<(String, String)> = Vec::new();
    let mut i: usize = 0;
    assert(all.take(0) =~= Seq::<(Seq<char>, Seq<char>)>::empty());
    assert(rows(list@) =~= Seq::<(Seq<char>, Seq<char>)>::empty());
    while i < entries.len()
        invariant
            all == rows(entries@),
            i <= entries@.len(),
            rows(list@) == ranked(kept(all.take(i as int), is_template()), more_specific()),
        decreases entries@.len() - i,
    {
        let entry = &entries[i];
        let ghost before = kept(all.take(i as int), is_template());
        proof {
            assert(all.take(i + 1).drop_last() =~= all.take(i as int));
            assert(all.take(i + 1).last() == entry@);
            assert(before.push(entry@).drop_last() =~= before);
        }
        if contains(entry.0.as_str(), "{0}") {
            let earlier = |a: &(String, String), b: &(String, String)| -> (r: bool)
                ensures
                    r == (weight(a@.0) > weight(b@.0)),
            {
                template_weight(a.0.as_str()) > template_weight(b.0.as_str())
            };
            place(&mut list, (entry.0.clone(), entry.1.clone()), earlier, Ghost(more_specific()));
        }
        i = i + 1;
    }
    assert(all.take(i as int) =~= all);
    list
}

impl Catalog {
    /// Whether the templates are those of the entries.
    pub open spec fn wf(self) -> bool {
        self@.templates == templates_of(self@.entries)
    }

    /// A catalog of some entries.
    pub fn new(entries: Vec<(String, String)>) -> (res: Catalog)
        ensures
            res@ == (CatalogModel { entries: rows(entries@), templates: templates_of(rows(entries@)) }),
            res.wf(),
    {
        let templates = templates(&entries);
        Catalog { entries, templates }
    }

    /// The catalog that a text in JSON holds, if it holds one.
    pub fn from_json(json: &str) -> (res: Option<Catalog>)
        ensures
            match res {
                Some(c) => c.wf() && json_texts(json@) == Some(c@.entries),
                None => json_texts(json@) is None,
            },
    {
        match read_texts(json) {
            Some(entries) => Some(Catalog::new(entries)),
            None => None,
        }
    }
}

/// What pieces of a template capture of a text, one after the other, counting
/// on from some number of values.
pub open spec fn capture_pieces(pieces: Seq<Seq<char>>, value: Seq<char>, values: Seq<Seq<char>>) -> Option<Seq<Seq<char>>>
    decreases pieces.len(),
{
    if pieces.len() == 0 {
        if value.len() == 0 {
            Some(values)
        } else {
            None
        }
    } else {
        match split_first(pieces[0], "}"@) {
            None => None,
            Some((index, suffix)) => if shown_number(index) != Some(values.len()) {
                None
            } else {
                let end = if suffix.len() == 0 {
                    Some(value.len() as int)
                } else {
                    find_from(value, suffix, 0)
                };
                match end {
                    None => None,
                    Some(at) => capture_pieces(
                        pieces.skip(1),
                        value.skip(at + suffix.len()),
                        values.push(value.take(at)),
                    ),
                }
            },
        }
    }
}

/// What a template captures of a text.
pub open spec fn captured(pattern: Seq<char>, value: Seq<char>) -> Option<Seq<Seq<char>>> {
    let pieces = split_by(pattern, "{"@);
    match after_prefix(value, pieces[0]) {
        None => None,
        Some(rest) => capture_pieces(pieces.skip(1), rest, Seq::empty()),
    }
}

/// Captured values, as they are seen.
pub open spec fn values_view(res: Option<Vec<String>>) -> Option<Seq<Seq<char>>> {
    match res {
        Some(values) => Some(texts(values@)),
        None => None,
    }
}

/// What a template captures of a text.
pub fn capture(pattern: &str, value: &str) -> (res: Option<Vec<String>>)
    ensures
        values_view(res) == captured(pattern@, value@),
{
    proof {
        reveal_strlit("{");
        reveal_strlit("}");
    }
    let pieces = split(pattern, "{");
    let ghost all = texts(pieces@);
    assert(all[0] == pieces@[0]@);
    let mut rest: String = match strip_prefix(value, pieces[0].as_str()) {
        Some(rest) => rest,
        None => {
            return None;
        },
    };
    let mut values: Vec<String> = Vec::new();
    let mut i: usize = 1;
    assert(texts(values@) =~= Seq::<Seq<char>>::empty());
    while i < pieces.len()
        invariant
            1 <= i <= pieces@.len(),
            all == texts(pieces@),
            captured(pattern@, value@) == capture_pieces(all.skip(i as int), rest@, texts(values@)),
        decreases pieces@.len() - i,
    {
        let ghost before = texts(values@);
        let ghost left = rest@;
        proof {
            assert(all.skip(i as int)[0] == pieces@[i as int]@);
            assert(all.skip(i as int).skip(1) =~= all.skip(i + 1));
            assert(before.len() == values@.len());
        }
        let (index, suffix) = match split_once(pieces[i].as_str(), "}") {
            Some(parts) => parts,
            None => {
                return None;
            },
        };
        let count: usize = values.len();
        match parse_number(index.as_str()) {
            Some(n) => {
                if n != count {
                    return None;
                }
            },
            None => {
                return None;
            },
        }
        if suffix.as_str().unicode_len() == 0 {
            assert(left.take(left.len() as int) =~= left);
            values.push(rest);
            rest = String::new();
            assert(left.skip(left.len() as int) =~= rest@);
        } else {
            let (head, tail) = match split_once(rest.as_str(), suffix.as_str()) {
                Some(parts) => parts,
                None => {
                    return None;
                },
            };
            values.push(head);
            rest = tail;
        }
        assert(texts(values@) =~= before.push(values@.last()@));
        i = i + 1;
    }
    assert(all.skip(i as int) =~= Seq::<Seq<char>>::empty());
    if rest.as_str().unicode_len() == 0 {
        Some(values)
    } else {
        None
    }
}

/// What a piece of a template becomes with some values: the value that it
/// names and what follows, or itself, where it names none.
pub open spec fn filled_piece(piece: Seq<char>, values: Seq<Seq<char>>) -> Seq<char> {
    match split_first(piece, "}"@) {
        Some((index, suffix)) => match shown_number(index) {
            Some(n) => if n < values.len() {
                values[n as int] + suffix
            } else {
                "{"@ + piece
            },
            None => "{"@ + piece,
        },
        None => "{"@ + piece,
    }
}

/// What pieces of a template become with some values.
pub open spec fn filled_pieces(pieces: Seq<Seq<char>>, values: Seq<Seq<char>>) -> Seq<char>
    decreases pieces.len(),
{
    if pieces.len() == 0 {
        Seq::empty()
    } else {
        filled_pieces(pieces.drop_last(), values) + filled_piece(pieces.last(), values)
    }
}

/// What a template becomes with some values, all of them filled in at once.
pub open spec fn substituted(pattern: Seq<char>, values: Seq<Seq<char>>) -> Seq<char> {
    let pieces = split_by(pattern, "{"@);
    pieces[0] + filled_pieces(pieces.skip(1), values)
}

fn fill_piece(piece: &str, values: &Vec<String>) -> (res: String)
    ensures
        res@ == filled_piece(piece@, texts(values@)),
{
    let count: usize = values.len();
    if let Some((index, suffix)) = split_once(piece, "}") {
        if let Some(n) = parse_number(index.as_str()) {
            if n < count {
                return joined(values[n].as_str(), suffix.as_str());
            }
        }
    }
    joined("{", piece)
}

/// Fill a template, in one pass, so that a value which holds a placeholder is
/// never interpreted.
pub fn substitute(pattern: &str, values: &Vec<String>) -> (res: String)
    ensures
        res@ == substituted(pattern@, texts(values@)),
{
    proof {
        reveal_strlit("{");
    }
    let pieces = split(pattern, "{");
    let ghost all = texts(pieces@);
    let ghost tail = all.skip(1);
    assert(all[0] == pieces@[0]@);
    let mut result = pieces[0].clone();
    let mut i: usize = 1;
    assert(tail.take(0) =~= Seq::<Seq<char>>::empty());
    assert(result@ =~= all[0] + filled_pieces(tail.take(0), texts(values@)));
    while i < pieces.len()
        invariant
            1 <= i <= pieces@.len(),
            all == texts(pieces@),
            tail == all.skip(1),
            result@ == all[0] + filled_pieces(tail.take(i - 1), texts(values@)),
        decreases pieces@.len() - i,
    {
        proof {
            assert(tail.take(i as int).drop_last() =~= tail.take(i - 1));
            assert(tail.take(i as int).last() == pieces@[i as int]@);
        }
        let ghost before = result@;
        let piece = fill_piece(pieces[i].as_str(), values);
        result = joined(result.as_str(), piece.as_str());
        assert(result@ =~= all[0] + (filled_pieces(tail.take(i - 1), texts(values@)) + piece@));
        i = i + 1;
    }
    assert(tail.take(i - 1) =~= tail);
    result
}

/// What templates make of a text: the first that captures it decides.
pub open spec fn by_template(templates: Seq<(Seq<char>, Seq<char>)>, value: Seq<char>) -> Seq<char>
    decreases templates.len(),
{
    if templates.len() == 0 {
        value
    } else {
        match captured(templates[0].0, value) {
            Some(values) => substituted(templates[0].1, values),
            None => by_template(templates.skip(1), value),
        }
    }
}

/// A text in a language: as the catalog has it, or by a template, or as it is.
pub open spec fn translated(c: CatalogModel, value: Seq<char>, language: Seq<char>) -> Seq<char> {
    if !is_spanish(language) {
        value
    } else {
        match value_for(c.entries, value) {
            Some(exact) => exact,
            None => by_template(c.templates, value),
        }
    }
}

/// A text in a language. Templates are matched only against system-authored
/// text. Substitutions stay verbatim.
pub fn text(catalog: &Catalog, value: &str, language: &str) -> (res: String)
    ensures
        res@ == translated(catalog@, value@, language@),
{
    if !speaks_spanish(language) {
        return value.to_owned();
    }
    if let Some(i) = find_key(&catalog.entries, value) {
        assert(catalog@.entries[i as int].1 == catalog.entries@[i as int].1@);
        return catalog.entries[i].1.clone();
    }
    let ghost all = catalog@.templates;
    let mut i: usize = 0;
    assert(all.skip(0) =~= all);
    while i < catalog.templates.len()
        invariant
            all == rows(catalog.templates@),
            i <= catalog.templates@.len(),
            translated(catalog@, value@, language@) == by_template(all.skip(i as int), value@),
        decreases catalog.templates@.len() - i,
    {
        proof {
            assert(all.skip(i as int)[0] == catalog.templates@[i as int]@);
            assert(all.skip(i as int).skip(1) =~= all.skip(i + 1));
        }
        if let Some(values) = capture(catalog.templates[i].0.as_str(), value) {
            return substitute(catalog.templates[i].1.as_str(), &values);
        }
        i = i + 1;
    }
    assert(all.skip(i as int) =~= Seq::<(Seq<char>, Seq<char>)>::empty());
    value.to_owned()
}

/// English is left as it is.
pub proof fn law_english_is_left_alone(c: CatalogModel, value: Seq<char>, language: Seq<char>)
    requires
        !is_spanish(language),
    ensures
        translated(c, value, language) == value,
        system_translated(c, value, language) == value,
{
}

/// What has no entry and fits no template is left as it is.
pub proof fn law_unknown_texts_are_left_alone(c: CatalogModel, value: Seq<char>, language: Seq<char>)
    requires
        value_for(c.entries, value) is None,
        forall|i: int| 0 <= i < c.templates.len() ==> captured((#[trigger] c.templates[i]).0, value) is None,
    ensures
        translated(c, value, language) == value,
{
    lemma_no_template(c.templates, value);
}

proof fn lemma_no_template(templates: Seq<(Seq<char>, Seq<char>)>, value: Seq<char>)
    requires
        forall|i: int| 0 <= i < templates.len() ==> captured((#[trigger] templates[i]).0, value) is None,
    ensures
        by_template(templates, value) == value,
    decreases templates.len(),
{
    if templates.len() > 0 {
        assert(captured(templates[0].0, value) is None);
        let rest = templates.skip(1);
        assert forall|i: int| 0 <= i < rest.len() implies captured((#[trigger] rest[i]).0, value) is None by {
            assert(captured(templates[i + 1].0, value) is None);
        }
        lemma_no_template(rest, value);
    }
}

/// A text without the full stops that it ends with.
pub open spec fn without_stops(s: Seq<char>) -> Seq<char>
    decreases s.len(),
{
    if s.len() > 0 && s.last() == '.' {
        without_stops(s.drop_last())
    } else {
        s
    }
}

fn cut_stops(s: &str) -> (res: String)
    ensures
        res@ == without_stops(s@),
{
    let v = characters(s);
    let mut to: usize = v.len();
    assert(v@.take(to as int) =~= v@);
    while to > 0 && v[to - 1] == '.'
        invariant
            to <= v@.len(),
            without_stops(v@) == without_stops(v@.take(to as int)),
        decreases to,
    {
        assert(v@.take(to as int).drop_last() =~= v@.take(to - 1));
        to = to - 1;
    }
    assert(v@.subrange(0, to as int) =~= v@.take(to as int));
    slice_text(&v, 0, to)
}

/// Whether what follows the last sentence of a rank update is a gap.
pub open spec fn is_gap(gap: Seq<char>) -> bool {
    before_suffix(gap, "."@) is Some && holds(gap, " XP behind "@)
}

/// A text of the game in a language: headings and their titles, descriptions
/// and their rewards, and the sentences of a rank update each on their own.
pub open spec fn system_translated(c: CatalogModel, value: Seq<char>, language: Seq<char>) -> Seq<char> {
    if !is_spanish(language) {
        value
    } else if after_prefix(value, "Achievement: "@) is Some {
        "Logro: "@ + translated(c, after_prefix(value, "Achievement: "@)->0, language)
    } else if after_prefix(value, "Quest complete: "@) is Some {
        "Misión completada: "@ + translated(c, after_prefix(value, "Quest complete: "@)->0, language)
    } else if split_last(value, " (+"@) is Some {
        let (description, xp) = split_last(value, " (+"@)->0;
        translated(c, description, language) + " (+"@ + xp
    } else if split_last(value, ". "@) is Some && is_gap((split_last(value, ". "@)->0).1) {
        let (placing, gap) = split_last(value, ". "@)->0;
        without_stops(translated(c, placing + "."@, language)) + ". "@ + translated(c, gap, language)
    } else {
        translated(c, value, language)
    }
}

/// A text of the game in a language.
pub fn system_text(catalog: &Catalog, value: &str, language: &str) -> (res: String)
    ensures
        res@ == system_translated(catalog@, value@, language@),
{
    if !speaks_spanish(language) {
        return value.to_owned();
    }
    if let Some(title) = strip_prefix(value, "Achievement: ") {
        let said = text(catalog, title.as_str(), language);
        return joined("Logro: ", said.as_str());
    }
    if let Some(title) = strip_prefix(value, "Quest complete: ") {
        let said = text(catalog, title.as_str(), language);
        return joined("Misión completada: ", said.as_str());
    }
    if let Some((description, xp)) = rsplit_once(value, " (+") {
        let said = text(catalog, description.as_str(), language);
        let head = joined(said.as_str(), " (+");
        return joined(head.as_str(), xp.as_str());
    }
    // Rank updates combine independently generated sentences, each with its own names.
    if let Some((placing, gap)) = rsplit_once(value, ". ") {
        if ends_with(gap.as_str(), ".") && contains(gap.as_str(), " XP behind ") {
            let sentence = joined(placing.as_str(), ".");
            let said = text(catalog, sentence.as_str(), language);
            let cut = cut_stops(said.as_str());
            let head = joined(cut.as_str(), ". ");
            let tail = text(catalog, gap.as_str(), language);
            return joined(head.as_str(), tail.as_str());
        }
    }
    text(catalog, value, language)
}

/// Put a notice into a language.
pub fn notice(catalog: &Catalog, notice: &mut Notice, language: &str)
    ensures
        final(notice)@ == (NoticeModel {
            title: system_translated(catalog@, old(notice)@.title, language@),
            body: system_translated(catalog@, old(notice)@.body, language@),
        }),
{
    let title = system_text(catalog, notice.title.as_str(), language);
    let body = system_text(catalog, notice.body.as_str(), language);
    notice.title = title;
    notice.body = body;
}

/// The first word of a text.
pub open spec fn first_word(s: Seq<char>) -> Seq<char> {
    up_to_white(crate::text::trimmed_start(s))
}

/// What a text begins with, up to white space.
pub open spec fn up_to_white(s: Seq<char>) -> Seq<char>
    decreases s.len(),
{
    if s.len() == 0 || is_white(s[0]) {
        Seq::empty()
    } else {
        seq![s[0]] + up_to_white(s.skip(1))
    }
}

fn word(s: &str) -> (res: String)
    ensures
        res@ == first_word(s@),
{
    let v = characters(s);
    let mut from: usize = 0;
    assert(v@.skip(0) =~= v@);
    while from < v.len() && white(v[from])
        invariant
            from <= v@.len(),
            crate::text::trimmed_start(v@) == crate::text::trimmed_start(v@.skip(from as int)),
        decreases v@.len() - from,
    {
        assert(v@.skip(from as int).drop_first() =~= v@.skip(from + 1));
        from = from + 1;
    }
    let ghost rest = v@.skip(from as int);
    let mut to: usize = from;
    assert(v@.subrange(from as int, from as int) + up_to_white(rest) =~= up_to_white(rest));
    while to < v.len() && !white(v[to])
        invariant
            from <= to <= v@.len(),
            rest == v@.skip(from as int),
            v@.subrange(from as int, to as int) + up_to_white(v@.skip(to as int)) == up_to_white(rest),
        decreases v@.len() - to,
    {
        proof {
            let left = v@.skip(to as int);
            assert(left[0] == v@[to as int]);
            assert(left.skip(1) =~= v@.skip(to + 1));
            assert(v@.subrange(from as int, to + 1) + up_to_white(v@.skip(to + 1)) =~= v@.subrange(from as int, to as int) + (
            seq![v@[to as int]] + up_to_white(v@.skip(to + 1))));
        }
        to = to + 1;
    }
    assert(v@.subrange(from as int, to as int) + Seq::<char>::empty() =~= v@.subrange(from as int, to as int));
    slice_text(&v, from, to)
}

/// A headline in a language: who was told of a deck, or any other.
pub open spec fn headline_translated(c: CatalogModel, headline: Seq<char>, language: Seq<char>) -> Seq<char> {
    if is_spanish(language) && split_last(headline, " — told "@) is Some {
        let (deck, people) = split_last(headline, " — told "@)->0;
        let count = first_word(people);
        deck + " — se avisó a "@ + count + " "@ + (if count == "1"@ {
            "amigo"@
        } else {
            "amigos"@
        })
    } else {
        system_translated(c, headline, language)
    }
}

fn headline(catalog: &Catalog, value: &str, language: &str) -> (res: String)
    ensures
        res@ == headline_translated(catalog@, value@, language@),
{
    if speaks_spanish(language) {
        if let Some((deck, people)) = rsplit_once(value, " — told ") {
            let count = word(people.as_str());
            let head = joined(deck.as_str(), " — se avisó a ");
            let middle = joined(head.as_str(), count.as_str());
            let spaced = joined(middle.as_str(), " ");
            return joined(
                spaced.as_str(),
                if same(count.as_str(), "1") {
                    "amigo"
                } else {
                    "amigos"
                },
            );
        }
    }
    system_text(catalog, value, language)
}

/// Headlines in a language.
pub open spec fn headlines_translated(c: CatalogModel, list: Seq<Seq<char>>, language: Seq<char>) -> Seq<Seq<char>> {
    list.map_values(|h: Seq<char>| headline_translated(c, h, language))
}

/// A status line in a language.
pub open spec fn status_translated(status: Option<Seq<char>>, language: Seq<char>) -> Option<Seq<char>> {
    match status {
        Some(line) => if is_spanish(language) {
            Some(replaced(line, "Lv "@, "Nv. "@))
        } else {
            Some(line)
        },
        None => None,
    }
}

fn translate_all(catalog: &Catalog, list: &Vec<String>, language: &str) -> (res: Vec<String>)
    ensures
        texts(res@) == headlines_translated(catalog@, texts(list@), language@),
{
    let ghost all = texts(list@);
    let mut res: Vec<String> = Vec::new();
    let mut i: usize = 0;
    assert(texts(res@) =~= headlines_translated(catalog@, all.take(0), language@));
    while i < list.len()
        invariant
            all == texts(list@),
            i <= list@.len(),
            texts(res@) == headlines_translated(catalog@, all.take(i as int), language@),
        decreases list@.len() - i,
    {
        let ghost before = texts(res@);
        let said = headline(catalog, list[i].as_str(), language);
        let ghost shown = said@;
        res.push(said);
        proof {
            assert(texts(res@) =~= before.push(shown));
            assert(all.take(i + 1) =~= all.take(i as int).push(list@[i as int]@));
            assert(texts(res@) =~= headlines_translated(catalog@, all.take(i + 1), language@));
        }
        i = i + 1;
    }
    assert(all.take(i as int) =~= all);
    res
}

/// Put what an upload changed into a language.
pub fn feedback(catalog: &Catalog, feedback: &mut Feedback, language: &str)
    ensures
        texts(final(feedback).headlines@) == headlines_translated(catalog@, texts(old(feedback).headlines@), language@),
        opt_text(final(feedback).status) == status_translated(opt_text(old(feedback).status), language@),
{
    let headlines = translate_all(catalog, &feedback.headlines, language);
    let status: Option<String> = match &feedback.status {
        Some(line) => if speaks_spanish(language) {
            proof {
                reveal_strlit("Lv ");
            }
            Some(replace(line.as_str(), "Lv ", "Nv. "))
        } else {
            Some(line.clone())
        },
        None => None,
    };
    feedback.headlines = headlines;
    feedback.status = status;
}

/// Whether a quest is another one put into a language.
pub open spec fn is_quest_in(a: QuestView, b: QuestView, c: CatalogModel, language: Seq<char>) -> bool {
    b == (QuestView { title: b.title, ..a }) && b.title@ == translated(c, a.title@, language)
}

/// Whether an achievement is another one put into a language.
pub open spec fn is_achievement_in(a: AchievementView, b: AchievementView, c: CatalogModel, language: Seq<char>) -> bool {
    &&& b == (AchievementView { title: b.title, description: b.description, ..a })
    &&& b.title@ == translated(c, a.title@, language)
    &&& b.description@ == translated(c, a.description@, language)
}

/// Whether a warning is another one put into a language.
pub open spec fn is_warning_in(a: Option<Notice>, b: Option<Notice>, c: CatalogModel, language: Seq<char>) -> bool {
    match (a, b) {
        (Some(x), Some(y)) => y@ == (NoticeModel {
            title: system_translated(c, x@.title, language),
            body: system_translated(c, x@.body, language),
        }),
        (None, None) => true,
        _ => false,
    }
}

/// Whether a profile is another one put into a language.
pub open spec fn is_profile_in(a: Profile, b: Profile, c: CatalogModel, language: Seq<char>) -> bool {
    &&& b == (Profile {
        quests: b.quests,
        achievements: b.achievements,
        streak_warning: b.streak_warning,
        ..a
    })
    &&& b.quests@.len() == a.quests@.len()
    &&& forall|i: int| 0 <= i < a.quests@.len() ==> is_quest_in(a.quests@[i], #[trigger] b.quests@[i], c, language)
    &&& b.achievements@.len() == a.achievements@.len()
    &&& forall|i: int|
        0 <= i < a.achievements@.len() ==> is_achievement_in(
            a.achievements@[i],
            #[trigger] b.achievements@[i],
            c,
            language,
        )
    &&& is_warning_in(a.streak_warning, b.streak_warning, c, language)
}

fn translate_quests(catalog: &Catalog, quests: &mut Vec<QuestView>, language: &str)
    ensures
        final(quests)@.len() == old(quests)@.len(),
        forall|i: int|
            0 <= i < old(quests)@.len() ==> is_quest_in(old(quests)@[i], #[trigger] final(quests)@[i], catalog@, language@),
{
    let ghost before = quests@;
    let n: usize = quests.len();
    let mut i: usize = 0;
    while i < n
        invariant
            n == quests@.len() == before.len(),
            i <= n,
            forall|k: int| 0 <= k < i ==> is_quest_in(before[k], #[trigger] quests@[k], catalog@, language@),
            forall|k: int| i <= k < n ==> before[k] == #[trigger] quests@[k],
        decreases n - i,
    {
        assert(quests@[i as int] == before[i as int]);
        let title = text(catalog, quests[i].title.as_str(), language);
        quests[i].title = title;
        i = i + 1;
    }
}

fn translate_achievements(catalog: &Catalog, achievements: &mut Vec<AchievementView>, language: &str)
    ensures
        final(achievements)@.len() == old(achievements)@.len(),
        forall|i: int|
            0 <= i < old(achievements)@.len() ==> is_achievement_in(
                old(achievements)@[i],
                #[trigger] final(achievements)@[i],
                catalog@,
                language@,
            ),
{
    let ghost before = achievements@;
    let n: usize = achievements.len();
    let mut i: usize = 0;
    while i < n
        invariant
            n == achievements@.len() == before.len(),
            i <= n,
            forall|k: int| 0 <= k < i ==> is_achievement_in(before[k], #[trigger] achievements@[k], catalog@, language@),
            forall|k: int| i <= k < n ==> before[k] == #[trigger] achievements@[k],
        decreases n - i,
    {
        assert(achievements@[i as int] == before[i as int]);
        let title = text(catalog, achievements[i].title.as_str(), language);
        let description = text(catalog, achievements[i].description.as_str(), language);
        achievements[i].title = title;
        achievements[i].description = description;
        i = i + 1;
    }
}

/// Put a profile into a language.
pub fn profile(catalog: &Catalog, profile: &mut Profile, language: &str)
    ensures
        is_profile_in(*old(profile), *final(profile), catalog@, language@),
{
    translate_quests(catalog, &mut profile.quests, language);
    translate_achievements(catalog, &mut profile.achievements, language);
    let warning: Option<Notice> = match &profile.streak_warning {
        Some(warning) => Some(
            Notice {
                title: system_text(catalog, warning.title.as_str(), language),
                body: system_text(catalog, warning.body.as_str(), language),
            },
        ),
        None => None,
    };
    profile.streak_warning = warning;
}

/// The name of the deck in an announcement of a sender.
pub open spec fn announced_deck(body: Seq<char>, sender: Seq<char>) -> Option<Seq<char>> {
    match after_prefix(body, sender + " has finished their "@) {
        Some(rest) => before_suffix(rest, " studies for today."@),
        None => None,
    }
}

/// Several titles in a language, each on its own.
pub open spec fn titles_translated(c: CatalogModel, list: Seq<Seq<char>>, language: Seq<char>) -> Seq<Seq<char>> {
    list.map_values(|t: Seq<char>| translated(c, t, language))
}

/// What a notification says in a language.
pub open spec fn body_translated(c: CatalogModel, kind: Seq<char>, title: Seq<char>, body: Seq<char>, language: Seq<char>, sender: Seq<char>) -> Seq<char> {
    if kind == "completion"@ {
        match announced_deck(body, sender) {
            Some(deck) => sender + " ha terminado su estudio de "@ + deck + " por hoy."@,
            None => translated(c, body, language),
        }
    } else if kind == "event"@ && before_suffix(title, " new unlocks"@) is Some {
        joined_by(titles_translated(c, split_by(body, ", "@), language), ", "@)
    } else {
        system_translated(c, body, language)
    }
}

/// Whether a notification is put into a language: what players wrote is not.
pub open spec fn is_translated(kind: Seq<char>, language: Seq<char>) -> bool {
    kind != "message"@ && kind != "reply"@ && is_spanish(language)
}

fn translate_titles(catalog: &Catalog, list: &Vec<String>, language: &str) -> (res: Vec<String>)
    ensures
        texts(res@) == titles_translated(catalog@, texts(list@), language@),
{
    let ghost all = texts(list@);
    let mut res: Vec<String> = Vec::new();
    let mut i: usize = 0;
    assert(texts(res@) =~= titles_translated(catalog@, all.take(0), language@));
    while i < list.len()
        invariant
            all == texts(list@),
            i <= list@.len(),
            texts(res@) == titles_translated(catalog@, all.take(i as int), language@),
        decreases list@.len() - i,
    {
        let ghost before = texts(res@);
        let said = text(catalog, list[i].as_str(), language);
        let ghost shown = said@;
        res.push(said);
        proof {
            assert(texts(res@) =~= before.push(shown));
            assert(all.take(i + 1) =~= all.take(i as int).push(list@[i as int]@));
            assert(texts(res@) =~= titles_translated(catalog@, all.take(i + 1), language@));
        }
        i = i + 1;
    }
    assert(all.take(i as int) =~= all);
    res
}

fn translate_body(catalog: &Catalog, notice: &Notification, language: &str, sender_display: &str) -> (res: String)
    ensures
        res@ == body_translated(catalog@, notice.kind@, notice.title@, notice.body@, language@, sender_display@),
{
    let body = notice.body.as_str();
    if same(notice.kind.as_str(), "completion") {
        // Remove the exact sender prefix rather than parsing arbitrary names as prose.
        let prefix = joined(sender_display, " has finished their ");
        if let Some(rest) = strip_prefix(body, prefix.as_str()) {
            if let Some(deck) = strip_suffix(rest.as_str(), " studies for today.") {
                let head = joined(sender_display, " ha terminado su estudio de ");
                let middle = joined(head.as_str(), deck.as_str());
                return joined(middle.as_str(), " por hoy.");
            }
        }
        text(catalog, body, language)
    } else if same(notice.kind.as_str(), "event") && ends_with(notice.title.as_str(), " new unlocks") {
        proof {
            reveal_strlit(", ");
        }
        let list = split(body, ", ");
        let said = translate_titles(catalog, &list, language);
        join(&said, ", ")
    } else {
        system_text(catalog, body, language)
    }
}

/// Put a notification into a language.
pub fn notification(catalog: &Catalog, notice: &mut Notification, language: &str, sender_display: &str)
    ensures
        *final(notice) == (Notification { title: final(notice).title, body: final(notice).body, ..*old(notice) }),
        final(notice).title@ == (if is_translated(old(notice).kind@, language@) {
            system_translated(catalog@, old(notice).title@, language@)
        } else {
            old(notice).title@
        }),
        final(notice).body@ == (if is_translated(old(notice).kind@, language@) {
            body_translated(
                catalog@,
                old(notice).kind@,
                old(notice).title@,
                old(notice).body@,
                language@,
                sender_display@,
            )
        } else {
            old(notice).body@
        }),
{
    if same(notice.kind.as_str(), "message") || same(notice.kind.as_str(), "reply") || !speaks_spanish(language) {
        return;
    }
    let body = translate_body(catalog, notice, language, sender_display);
    let title = system_text(catalog, notice.title.as_str(), language);
    notice.body = body;
    notice.title = title;
}

/// The texts of the community page that are put into a language: the titles
/// of awards, those of each player's trophies, and the note on scoring.
#[derive(Clone, Debug)]
pub struct Community {
    pub awards: Vec<String>,
    pub trophies: Vec<Vec<String>>,
    pub scoring_note: Option<String>,
}

/// Put the texts of the community page into a language.
pub fn community(catalog: &Catalog, value: &Community, language: &str) -> (res: Community)
    ensures
        texts(res.awards@) == titles_translated(catalog@, texts(value.awards@), language@),
        res.trophies@.len() == value.trophies@.len(),
        forall|i: int|
            0 <= i < value.trophies@.len() ==> texts((#[trigger] res.trophies@[i])@) == titles_translated(
                catalog@,
                texts(value.trophies@[i]@),
                language@,
            ),
        opt_text(res.scoring_note) == (match value.scoring_note {
            Some(note) => Some(translated(catalog@, note@, language@)),
            None => None,
        }),
{
    let awards = translate_titles(catalog, &value.awards, language);
    let mut trophies: Vec<Vec<String>> = Vec::new();
    let mut i: usize = 0;
    while i < value.trophies.len()
        invariant
            i <= value.trophies@.len(),
            trophies@.len() == i,
            forall|k: int|
                0 <= k < i ==> texts((#[trigger] trophies@[k])@) == titles_translated(
                    catalog@,
                    texts(value.trophies@[k]@),
                    language@,
                ),
        decreases value.trophies@.len() - i,
    {
        trophies.push(translate_titles(catalog, &value.trophies[i], language));
        i = i + 1;
    }
    let scoring_note: Option<String> = match &value.scoring_note {
        Some(note) => Some(text(catalog, note.as_str(), language)),
        None => None,
    };
    Community { awards, trophies, scoring_note }
}

proof fn lemma_filled_first(pieces: Seq<Seq<char>>, values: Seq<Seq<char>>)
    requires
        pieces.len() > 0,
    ensures
        filled_pieces(pieces, values) == filled_piece(pieces[0], values) + filled_pieces(pieces.skip(1), values),
    decreases pieces.len(),
{
    let first = filled_piece(pieces[0], values);
    if pieces.len() == 1 {
        assert(pieces.drop_last() =~= Seq::<Seq<char>>::empty());
        assert(pieces.skip(1) =~= Seq::<Seq<char>>::empty());
        assert(Seq::<char>::empty() + first =~= first + Seq::<char>::empty());
    } else {
        let init = pieces.drop_last();
        let last = filled_piece(pieces.last(), values);
        lemma_filled_first(init, values);
        assert(init.skip(1) =~= pieces.skip(1).drop_last());
        assert((first + filled_pieces(init.skip(1), values)) + last =~= first + (filled_pieces(init.skip(1), values) + last));
    }
}

proof fn lemma_captured_pieces(pieces: Seq<Seq<char>>, value: Seq<char>, values: Seq<Seq<char>>, all: Seq<Seq<char>>)
    requires
        capture_pieces(pieces, value, values) == Some(all),
    ensures
        values.len() <= all.len(),
        all.take(values.len() as int) == values,
        filled_pieces(pieces, all) == value,
    decreases pieces.len(),
{
    if pieces.len() == 0 {
        assert(all.take(values.len() as int) =~= values);
        assert(filled_pieces(pieces, all) =~= value);
    } else {
        let (index, suffix) = split_first(pieces[0], "}"@)->0;
        let at: int = if suffix.len() == 0 {
            value.len() as int
        } else {
            find_from(value, suffix, 0)->0
        };
        crate::pieces::lemma_find_from(value, suffix, 0);
        let more = values.push(value.take(at));
        let rest = value.skip(at + suffix.len());
        lemma_captured_pieces(pieces.skip(1), rest, more, all);
        assert(all.take(values.len() as int) =~= all.take(more.len() as int).take(values.len() as int));
        assert(more.take(values.len() as int) =~= values);
        assert(all.take(more.len() as int)[values.len() as int] == value.take(at));
        assert(filled_piece(pieces[0], all) == value.take(at) + suffix);
        lemma_filled_first(pieces, all);
        if suffix.len() > 0 {
            assert(value.subrange(at, at + suffix.len()) == suffix);
        }
        assert(value.take(at) + suffix + rest =~= value);
    }
}

/// What a template has captured of a text, filled in again, is that text.
pub proof fn law_captured_values_fill_the_template(pattern: Seq<char>, value: Seq<char>)
    ensures
        captured(pattern, value) matches Some(values) ==> substituted(pattern, values) == value,
{
    if captured(pattern, value) is Some {
        let values = captured(pattern, value)->0;
        let pieces = split_by(pattern, "{"@);
        let rest = after_prefix(value, pieces[0])->0;
        lemma_captured_pieces(pieces.skip(1), rest, Seq::empty(), values);
        assert(value.subrange(0, pieces[0].len() as int) == pieces[0]);
        assert(pieces[0] + rest =~= value);
    }
}

/// Spanish is asked for by its two letters, in either case, alone or with a region
/// behind a hyphen or an underscore; everything else is taken for English.
pub proof fn law_spanish_is_asked_for_by_its_letters(tag: Seq<char>)
    ensures
        normalized(tag) == "es"@ || normalized(tag) == "en"@,
        tag.len() == 2 && (tag[0] == 'e' || tag[0] == 'E') && (tag[1] == 's' || tag[1] == 'S') ==> normalized(tag)
            == "es"@,
        tag.len() > 2 && (tag[0] == 'e' || tag[0] == 'E') && (tag[1] == 's' || tag[1] == 'S') ==> (normalized(tag)
            == "es"@ <==> tag[2] == '-' || tag[2] == '_'),
        tag.len() < 2 || (tag[0] != 'e' && tag[0] != 'E') || (tag[1] != 's' && tag[1] != 'S') ==> normalized(tag)
            == "en"@,
{
    reveal_strlit("es");
    reveal_strlit("en");
    assert("es"@[1] == 's' && "en"@[1] == 'n');
    let one = tag.skip(1);
    let two = one.skip(1);
    if tag.len() >= 1 {
        assert(tag_head(tag) == if tag[0] == '-' || tag[0] == '_' {
            Seq::<char>::empty()
        } else {
            seq![tag[0]] + tag_head(one)
        });
    }
    if tag.len() >= 2 {
        assert(one[0] == tag[1]);
        assert(tag_head(one) == if one[0] == '-' || one[0] == '_' {
            Seq::<char>::empty()
        } else {
            seq![one[0]] + tag_head(two)
        });
    }
    if tag.len() >= 3 {
        assert(two[0] == tag[2]);
        assert(tag_head(two) == if two[0] == '-' || two[0] == '_' {
            Seq::<char>::empty()
        } else {
            seq![two[0]] + tag_head(two.skip(1))
        });
    } else if tag.len() == 2 {
        assert(two.len() == 0);
        assert(tag_head(two) =~= Seq::<char>::empty());
    } else if tag.len() == 1 {
        assert(one.len() == 0);
        assert(tag_head(one) =~= Seq::<char>::empty());
    }
}

/// A request that names no language is answered in the player's own, and that is
/// the one that was chosen last, or else English.
pub proof fn law_the_chosen_language_is_used(m: StoreModel, user: Seq<char>, tag: Seq<char>)
    ensures
        selected_language(None, language_set(m, user, tag), user) == normalized(tag),
        value_for(m.languages, user) is None ==> selected_language(None, m, user) == "en"@,
{
    crate::table::law_put_is_found(m.languages, user, normalized(tag), user);
}

} // verus!
