//! Identifiers, their text, and short identifiers: prefixes of the text that
//! fit exactly one record.

use vstd::prelude::*;
use crate::entity::{keys, views, Entity};
use crate::error::Error;

verus! {

/// The length of an identifier's text.
pub const TEXT_LEN: usize = 36;

/// The lower-case hexadecimal digit for a value below sixteen.
pub open spec fn hex_char(n: u128) -> char {
    if n == 0 {
        '0'
    } else if n == 1 {
        '1'
    } else if n == 2 {
        '2'
    } else if n == 3 {
        '3'
    } else if n == 4 {
        '4'
    } else if n == 5 {
        '5'
    } else if n == 6 {
        '6'
    } else if n == 7 {
        '7'
    } else if n == 8 {
        '8'
    } else if n == 9 {
        '9'
    } else if n == 10 {
        'a'
    } else if n == 11 {
        'b'
    } else if n == 12 {
        'c'
    } else if n == 13 {
        'd'
    } else if n == 14 {
        'e'
    } else {
        'f'
    }
}

/// The `k`-th group of four bits of the identifier, counted from the most
/// significant one.
pub open spec fn nibble(id: u128, k: int) -> u128 {
    (id >> (((31 - k) * 4) as u128)) & 0xf
}

/// Whether the text holds a hyphen at this place.
pub open spec fn hyphen_at(i: int) -> bool {
    i == 8 || i == 13 || i == 18 || i == 23
}

/// How many digits stand before this place of the text.
pub open spec fn digits_before(i: int) -> int {
    if i < 8 {
        i
    } else if i < 13 {
        i - 1
    } else if i < 18 {
        i - 2
    } else if i < 23 {
        i - 3
    } else {
        i - 4
    }
}

/// The text of an identifier: its 32 hexadecimal digits in lower case, the
/// most significant first, in groups of 8, 4, 4, 4 and 12 with hyphens
/// between them.
pub open spec fn id_text(id: u128) -> Seq<char> {
    Seq::new(
        TEXT_LEN as nat,
        |i: int|
            if hyphen_at(i) {
                '-'
            } else {
                hex_char(nibble(id, digits_before(i)))
            },
    )
}

/// The text of an identifier, written by `uuid::Uuid::from_u128` and the
/// `Display` of `uuid::fmt::Hyphenated`. Trusted: that uuid takes the value
/// most significant byte first and writes each byte as two lower-case
/// hexadecimal digits, with hyphens after the 8th, 12th, 16th and 20th digit.
#[verifier::external_body]
pub(crate) fn hyphenated(id: u128) -> (r: String)
    ensures
        r@ == id_text(id),
{
    uuid::Uuid::from_u128(id).hyphenated().to_string()
}

/// A random identifier from `uuid::Uuid::new_v4`. Nothing is claimed of it.
#[verifier::external_body]
pub(crate) fn random_id() -> (r: u128) {
    uuid::Uuid::new_v4().as_u128()
}

/// Whether `text` begins with `prefix`.
pub fn starts_with(text: &str, prefix: &str) -> (r: bool)
    ensures
        r == prefix@.is_prefix_of(text@),
{
    let n = prefix.unicode_len();
    if n > text.unicode_len() {
        return false;
    }
    let mut i: usize = 0;
    while i < n
        invariant
            n == prefix@.len(),
            n <= text@.len(),
            0 <= i <= n,
            forall|j: int| 0 <= j < i ==> prefix@[j] == text@[j],
        decreases n - i,
    {
        if prefix.get_char(i) != text.get_char(i) {
            assert(text@.subrange(0, n as int)[i as int] == text@[i as int]);
            return false;
        }
        i += 1;
    }
    assert(prefix@ =~= text@.subrange(0, n as int));
    true
}

/// Whether the short identifier fits the identifier: whether it is a prefix
/// of its text.
pub open spec fn fits(short: Seq<char>, id: u128) -> bool {
    short.is_prefix_of(id_text(id))
}

/// The test that `fits` is for a given short identifier.
pub open spec fn fitting(short: Seq<char>) -> spec_fn(u128) -> bool {
    |id: u128| fits(short, id)
}

/// The identifiers, in order, that the short identifier fits.
pub open spec fn candidates(ids: Seq<u128>, short: Seq<char>) -> Seq<u128> {
    ids.filter(fitting(short))
}

/// What a short identifier resolves to among the given identifiers: the one
/// it fits, and an error when it fits none or several.
pub open spec fn resolution(ids: Seq<u128>, short: Seq<char>) -> Result<u128, Seq<u128>> {
    let c = candidates(ids, short);
    if c.len() == 1 {
        Ok(c[0])
    } else {
        Err(c)
    }
}

/// Whether a result reports that a short identifier does not resolve, the
/// identifiers that it fits being `fitted`: as not found where it fits none,
/// and as ambiguous, with those identifiers listed, where it fits several.
pub open spec fn unresolved_as<T>(r: Result<T, Error>, fitted: Seq<u128>) -> bool {
    if fitted.len() == 0 {
        r == Err::<T, Error>(Error::NotFound)
    } else {
        r matches Err(Error::Ambiguous(found)) && found@ == fitted
    }
}

/// Whether a result of `resolve` says what `resolution` says.
pub open spec fn resolved_as(r: Result<u128, Error>, expected: Result<u128, Seq<u128>>) -> bool {
    match expected {
        Ok(id) => r == Ok::<u128, Error>(id),
        Err(c) => unresolved_as(r, c),
    }
}

/// Collects the identifiers of the records that the short identifier fits.
pub fn find_candidates<E: Entity>(records: &Vec<E>, short_id: &str) -> (r: Vec<u128>)
    ensures
        r@ == candidates(keys::<E>(views(records@)), short_id@),
{
    let ghost ids = keys::<E>(views(records@));
    let ghost pred = fitting(short_id@);
    let mut found: Vec<u128> = Vec::new();
    let mut i: usize = 0;
    assert(ids.take(0) =~= Seq::<u128>::empty());
    while i < records.len()
        invariant
            0 <= i <= records.len(),
            ids == keys::<E>(views(records@)),
            ids.len() == records.len(),
            pred == fitting(short_id@),
            found@ == ids.take(i as int).filter(pred),
        decreases records.len() - i,
    {
        let id = records[i].entity_id();
        let text = hyphenated(id);
        proof {
            assert(ids[i as int] == id);
            assert(ids.take(i + 1) =~= ids.take(i as int).push(id));
            ids.take(i as int).lemma_filter_push(id, pred);
        }
        if starts_with(text.as_str(), short_id) {
            found.push(id);
        }
        i += 1;
    }
    assert(ids.take(records.len() as int) =~= ids);
    found
}

/// Resolves a short identifier among the records: to the identifier of the one
/// record it fits. It is never guessed: a short identifier that fits several
/// records is an error that lists them.
pub fn resolve<E: Entity>(records: &Vec<E>, short_id: &str) -> (r: Result<u128, Error>)
    ensures
        resolved_as(r, resolution(keys::<E>(views(records@)), short_id@)),
{
    let found = find_candidates(records, short_id);
    if found.len() == 1 {
        Ok(found[0])
    } else if found.len() == 0 {
        Err(Error::NotFound)
    } else {
        Err(Error::Ambiguous(found))
    }
}

/// The place in the text at which the `k`-th digit stands.
pub open spec fn place_of_digit(k: int) -> int {
    if k < 8 {
        k
    } else if k < 12 {
        k + 1
    } else if k < 16 {
        k + 2
    } else if k < 20 {
        k + 3
    } else {
        k + 4
    }
}

/// Identifiers with the same groups of four bits are the same.
proof fn lemma_nibbles_determine_id(a: u128, b: u128)
    requires
        forall|k: int| 0 <= k < 32 ==> nibble(a, k) == nibble(b, k),
    ensures
        a == b,
{
    assert(nibble(a, 0) == (a >> 124u128) & 0xf && nibble(b, 0) == (b >> 124u128) & 0xf);
    assert(nibble(a, 1) == (a >> 120u128) & 0xf && nibble(b, 1) == (b >> 120u128) & 0xf);
    assert(nibble(a, 2) == (a >> 116u128) & 0xf && nibble(b, 2) == (b >> 116u128) & 0xf);
    assert(nibble(a, 3) == (a >> 112u128) & 0xf && nibble(b, 3) == (b >> 112u128) & 0xf);
    assert(nibble(a, 4) == (a >> 108u128) & 0xf && nibble(b, 4) == (b >> 108u128) & 0xf);
    assert(nibble(a, 5) == (a >> 104u128) & 0xf && nibble(b, 5) == (b >> 104u128) & 0xf);
    assert(nibble(a, 6) == (a >> 100u128) & 0xf && nibble(b, 6) == (b >> 100u128) & 0xf);
    assert(nibble(a, 7) == (a >> 96u128) & 0xf && nibble(b, 7) == (b >> 96u128) & 0xf);
    assert(nibble(a, 8) == (a >> 92u128) & 0xf && nibble(b, 8) == (b >> 92u128) & 0xf);
    assert(nibble(a, 9) == (a >> 88u128) & 0xf && nibble(b, 9) == (b >> 88u128) & 0xf);
    assert(nibble(a, 10) == (a >> 84u128) & 0xf && nibble(b, 10) == (b >> 84u128) & 0xf);
    assert(nibble(a, 11) == (a >> 80u128) & 0xf && nibble(b, 11) == (b >> 80u128) & 0xf);
    assert(nibble(a, 12) == (a >> 76u128) & 0xf && nibble(b, 12) == (b >> 76u128) & 0xf);
    assert(nibble(a, 13) == (a >> 72u128) & 0xf && nibble(b, 13) == (b >> 72u128) & 0xf);
    assert(nibble(a, 14) == (a >> 68u128) & 0xf && nibble(b, 14) == (b >> 68u128) & 0xf);
    assert(nibble(a, 15) == (a >> 64u128) & 0xf && nibble(b, 15) == (b >> 64u128) & 0xf);
    assert(nibble(a, 16) == (a >> 60u128) & 0xf && nibble(b, 16) == (b >> 60u128) & 0xf);
    assert(nibble(a, 17) == (a >> 56u128) & 0xf && nibble(b, 17) == (b >> 56u128) & 0xf);
    assert(nibble(a, 18) == (a >> 52u128) & 0xf && nibble(b, 18) == (b >> 52u128) & 0xf);
    assert(nibble(a, 19) == (a >> 48u128) & 0xf && nibble(b, 19) == (b >> 48u128) & 0xf);
    assert(nibble(a, 20) == (a >> 44u128) & 0xf && nibble(b, 20) == (b >> 44u128) & 0xf);
    assert(nibble(a, 21) == (a >> 40u128) & 0xf && nibble(b, 21) == (b >> 40u128) & 0xf);
    assert(nibble(a, 22) == (a >> 36u128) & 0xf && nibble(b, 22) == (b >> 36u128) & 0xf);
    assert(nibble(a, 23) == (a >> 32u128) & 0xf && nibble(b, 23) == (b >> 32u128) & 0xf);
    assert(nibble(a, 24) == (a >> 28u128) & 0xf && nibble(b, 24) == (b >> 28u128) & 0xf);
    assert(nibble(a, 25) == (a >> 24u128) & 0xf && nibble(b, 25) == (b >> 24u128) & 0xf);
    assert(nibble(a, 26) == (a >> 20u128) & 0xf && nibble(b, 26) == (b >> 20u128) & 0xf);
    assert(nibble(a, 27) == (a >> 16u128) & 0xf && nibble(b, 27) == (b >> 16u128) & 0xf);
    assert(nibble(a, 28) == (a >> 12u128) & 0xf && nibble(b, 28) == (b >> 12u128) & 0xf);
    assert(nibble(a, 29) == (a >> 8u128) & 0xf && nibble(b, 29) == (b >> 8u128) & 0xf);
    assert(nibble(a, 30) == (a >> 4u128) & 0xf && nibble(b, 30) == (b >> 4u128) & 0xf);
    assert(nibble(a, 31) == (a >> 0u128) & 0xf && nibble(b, 31) == (b >> 0u128) & 0xf);
    assert(a == b) by (bit_vector)
        requires
            (a >> 124u128) & 0xf == (b >> 124u128) & 0xf,
            (a >> 120u128) & 0xf == (b >> 120u128) & 0xf,
            (a >> 116u128) & 0xf == (b >> 116u128) & 0xf,
            (a >> 112u128) & 0xf == (b >> 112u128) & 0xf,
            (a >> 108u128) & 0xf == (b >> 108u128) & 0xf,
            (a >> 104u128) & 0xf == (b >> 104u128) & 0xf,
            (a >> 100u128) & 0xf == (b >> 100u128) & 0xf,
            (a >> 96u128) & 0xf == (b >> 96u128) & 0xf,
            (a >> 92u128) & 0xf == (b >> 92u128) & 0xf,
            (a >> 88u128) & 0xf == (b >> 88u128) & 0xf,
            (a >> 84u128) & 0xf == (b >> 84u128) & 0xf,
            (a >> 80u128) & 0xf == (b >> 80u128) & 0xf,
            (a >> 76u128) & 0xf == (b >> 76u128) & 0xf,
            (a >> 72u128) & 0xf == (b >> 72u128) & 0xf,
            (a >> 68u128) & 0xf == (b >> 68u128) & 0xf,
            (a >> 64u128) & 0xf == (b >> 64u128) & 0xf,
            (a >> 60u128) & 0xf == (b >> 60u128) & 0xf,
            (a >> 56u128) & 0xf == (b >> 56u128) & 0xf,
            (a >> 52u128) & 0xf == (b >> 52u128) & 0xf,
            (a >> 48u128) & 0xf == (b >> 48u128) & 0xf,
            (a >> 44u128) & 0xf == (b >> 44u128) & 0xf,
            (a >> 40u128) & 0xf == (b >> 40u128) & 0xf,
            (a >> 36u128) & 0xf == (b >> 36u128) & 0xf,
            (a >> 32u128) & 0xf == (b >> 32u128) & 0xf,
            (a >> 28u128) & 0xf == (b >> 28u128) & 0xf,
            (a >> 24u128) & 0xf == (b >> 24u128) & 0xf,
            (a >> 20u128) & 0xf == (b >> 20u128) & 0xf,
            (a >> 16u128) & 0xf == (b >> 16u128) & 0xf,
            (a >> 12u128) & 0xf == (b >> 12u128) & 0xf,
            (a >> 8u128) & 0xf == (b >> 8u128) & 0xf,
            (a >> 4u128) & 0xf == (b >> 4u128) & 0xf,
            (a >> 0u128) & 0xf == (b >> 0u128) & 0xf,
    ;
}

/// Different values below sixteen have different digits.
proof fn lemma_digit_determines_value(m: u128, n: u128)
    requires
        m < 16,
        n < 16,
        hex_char(m) == hex_char(n),
    ensures
        m == n,
{
}

/// A group of four bits is a value below sixteen.
proof fn lemma_nibble_bound(x: u128)
    ensures
        x & 0xf < 16,
{
    assert(x & 0xf < 16) by (bit_vector);
}

/// The text determines the identifier: two identifiers with the same text
/// are the same.
pub proof fn lemma_text_determines_id(a: u128, b: u128)
    requires
        id_text(a) == id_text(b),
    ensures
        a == b,
{
    assert forall|k: int| 0 <= k < 32 implies nibble(a, k) == nibble(b, k) by {
        let i = place_of_digit(k);
        assert(digits_before(i) == k && !hyphen_at(i));
        assert(id_text(a)[i] == hex_char(nibble(a, k)));
        assert(id_text(b)[i] == hex_char(nibble(b, k)));
        lemma_nibble_bound(a >> (((31 - k) * 4) as u128));
        lemma_nibble_bound(b >> (((31 - k) * 4) as u128));
        lemma_digit_determines_value(nibble(a, k), nibble(b, k));
    }
    lemma_nibbles_determine_id(a, b);
}

/// Among identifiers of which none occurs twice, the full text of one of
/// them resolves to it.
pub proof fn lemma_full_text_resolves(ids: Seq<u128>, id: u128)
    requires
        ids.no_duplicates(),
        ids.contains(id),
    ensures
        resolution(ids, id_text(id)) == Ok::<u128, Seq<u128>>(id),
    decreases ids.len(),
{
    let pred = fitting(id_text(id));
    assert forall|x: u128| #[trigger] pred(x) <==> x == id by {
        if fits(id_text(id), x) {
            assert(id_text(x).subrange(0, TEXT_LEN as int) =~= id_text(x));
            lemma_text_determines_id(x, id);
        } else {
            assert(id_text(id).subrange(0, TEXT_LEN as int) =~= id_text(id));
        }
    }
    lemma_filter_one(ids, id, pred);
}

/// Filtering a sequence without duplicates for one of its values leaves that
/// value alone.
proof fn lemma_filter_one(ids: Seq<u128>, id: u128, pred: spec_fn(u128) -> bool)
    requires
        ids.no_duplicates(),
        forall|x: u128| #[trigger] pred(x) <==> x == id,
    ensures
        ids.filter(pred) == if ids.contains(id) {
            seq![id]
        } else {
            Seq::<u128>::empty()
        },
    decreases ids.len(),
{
    reveal(Seq::filter);
    if ids.len() > 0 {
        let init = ids.drop_last();
        lemma_filter_one(init, id, pred);
        if ids.last() == id {
            assert(!init.contains(id)) by {
                if init.contains(id) {
                    let j = choose|j: int| 0 <= j < init.len() && init[j] == id;
                    assert(ids[j] == ids[ids.len() - 1]);
                }
            }
            assert(ids.contains(id)) by {
                assert(ids[ids.len() - 1] == id);
            }
            assert(Seq::<u128>::empty().push(id) =~= seq![id]);
        } else {
            assert(ids.contains(id) == init.contains(id)) by {
                if ids.contains(id) {
                    let j = choose|j: int| 0 <= j < ids.len() && ids[j] == id;
                    assert(init[j] == id);
                }
                if init.contains(id) {
                    let j = choose|j: int| 0 <= j < init.len() && init[j] == id;
                    assert(ids[j] == id);
                }
            }
        }
    }
}

/// A short identifier that fits a record still fits it when cut shorter.
pub proof fn lemma_shorter_fits(short: Seq<char>, shorter: Seq<char>, id: u128)
    requires
        fits(short, id),
        shorter.is_prefix_of(short),
    ensures
        fits(shorter, id),
{
    assert(shorter =~= id_text(id).subrange(0, shorter.len() as int));
}

/// What a short identifier resolves to is among the identifiers: none that is
/// not listed is ever resolved to.
pub proof fn lemma_unlisted_never_resolves(ids: Seq<u128>, id: u128)
    requires
        !ids.contains(id),
    ensures
        forall|short: Seq<char>| #[trigger] resolution(ids, short) != Ok::<u128, Seq<u128>>(id),
{
    assert forall|short: Seq<char>| #[trigger] resolution(ids, short) != Ok::<u128, Seq<u128>>(
        id,
    ) by {
        let c = candidates(ids, short);
        if c.len() == 1 && c[0] == id {
            ids.lemma_filter_contains_rev(fitting(short), id);
            assert(c.contains(id));
        }
    }
}

/// Whether `short` is the short identifier of `id` among the identifiers:
/// a beginning of its text that resolves to it, while no shorter one does.
pub open spec fn is_short_id(ids: Seq<u128>, id: u128, short: Seq<char>) -> bool {
    &&& short.is_prefix_of(id_text(id))
    &&& resolution(ids, short) == Ok::<u128, Seq<u128>>(id)
    &&& forall|n: int|
        0 <= n < short.len() ==> resolution(ids, #[trigger] id_text(id).take(n)) != Ok::<
            u128,
            Seq<u128>,
        >(id)
}

/// Whether no beginning of the text of `id` resolves to it among the
/// identifiers.
pub open spec fn has_no_short_id(ids: Seq<u128>, id: u128) -> bool {
    forall|n: int|
        0 <= n <= TEXT_LEN ==> resolution(ids, #[trigger] id_text(id).take(n)) != Ok::<
            u128,
            Seq<u128>,
        >(id)
}

/// The short identifier of a record: the shortest beginning of the text of
/// its identifier that resolves to it among the records. There is none where
/// no beginning does: where the record is not among them.
pub fn short_id<E: Entity>(records: &Vec<E>, id: u128) -> (r: Option<String>)
    ensures
        match r {
            Some(short) => is_short_id(keys::<E>(views(records@)), id, short@),
            None => has_no_short_id(keys::<E>(views(records@)), id),
        },
        keys::<E>(views(records@)).no_duplicates() && keys::<E>(views(records@)).contains(id)
            ==> r is Some,
{
    let text = hyphenated(id);
    let ghost ids = keys::<E>(views(records@));
    let mut n: usize = 0;
    while n <= TEXT_LEN
        invariant
            0 <= n <= TEXT_LEN + 1,
            text@ == id_text(id),
            ids == keys::<E>(views(records@)),
            forall|m: int|
                0 <= m < n ==> resolution(ids, #[trigger] id_text(id).take(m)) != Ok::<
                    u128,
                    Seq<u128>,
                >(id),
        decreases TEXT_LEN + 1 - n,
    {
        let prefix = text.as_str().substring_char(0, n);
        assert(prefix@ =~= id_text(id).take(n as int));
        let found = find_candidates(records, prefix);
        if found.len() == 1 && found[0] == id {
            return Some(prefix.to_owned());
        }
        n += 1;
    }
    proof {
        if ids.no_duplicates() && ids.contains(id) {
            lemma_full_text_resolves(ids, id);
            assert(id_text(id).take(TEXT_LEN as int) =~= id_text(id));
        }
    }
    None
}


/// The identifier that a text is the text of; none where it is the text of
/// no identifier.
pub open spec fn id_value(text: Seq<char>) -> Option<u128> {
    if exists|id: u128| id_text(id) == text {
        Some(choose|id: u128| id_text(id) == text)
    } else {
        None
    }
}

/// The text of an identifier is read back as that identifier.
pub proof fn lemma_id_round_trip(id: u128)
    ensures
        id_value(id_text(id)) == Some(id),
{
    let found = choose|other: u128| id_text(other) == id_text(id);
    lemma_text_determines_id(found, id);
}

/// The value of a lower-case hexadecimal digit; none for any other
/// character.
pub open spec fn hex_value(c: char) -> Option<u128> {
    if c == '0' {
        Some(0)
    } else if c == '1' {
        Some(1)
    } else if c == '2' {
        Some(2)
    } else if c == '3' {
        Some(3)
    } else if c == '4' {
        Some(4)
    } else if c == '5' {
        Some(5)
    } else if c == '6' {
        Some(6)
    } else if c == '7' {
        Some(7)
    } else if c == '8' {
        Some(8)
    } else if c == '9' {
        Some(9)
    } else if c == 'a' {
        Some(10)
    } else if c == 'b' {
        Some(11)
    } else if c == 'c' {
        Some(12)
    } else if c == 'd' {
        Some(13)
    } else if c == 'e' {
        Some(14)
    } else if c == 'f' {
        Some(15)
    } else {
        None
    }
}

/// The value of a lower-case hexadecimal digit; none for any other
/// character.
pub fn hex_of(c: char) -> (r: Option<u128>)
    ensures
        r == hex_value(c),
        r matches Some(d) ==> d < 16 && hex_char(d) == c,
{
    if c == '0' {
        Some(0)
    } else if c == '1' {
        Some(1)
    } else if c == '2' {
        Some(2)
    } else if c == '3' {
        Some(3)
    } else if c == '4' {
        Some(4)
    } else if c == '5' {
        Some(5)
    } else if c == '6' {
        Some(6)
    } else if c == '7' {
        Some(7)
    } else if c == '8' {
        Some(8)
    } else if c == '9' {
        Some(9)
    } else if c == 'a' {
        Some(10)
    } else if c == 'b' {
        Some(11)
    } else if c == 'c' {
        Some(12)
    } else if c == 'd' {
        Some(13)
    } else if c == 'e' {
        Some(14)
    } else if c == 'f' {
        Some(15)
    } else {
        None
    }
}

/// Every digit of a text of an identifier is a hexadecimal digit.
proof fn lemma_hex_char_is_hex(n: u128)
    ensures
        hex_value(hex_char(n)) is Some,
{
}

/// What shifting a digit in from below does to the groups of four bits.
proof fn lemma_shift_in(v: u128, d: u128, s: u128, t: u128)
    requires
        d < 16,
        v >> 124u128 == 0,
        s <= 120,
        t == s + 4,
    ensures
        (((v << 4u128) | d) >> t) & 0xf == (v >> s) & 0xf,
        ((v << 4u128) | d) & 0xf == d,
{
    assert((((v << 4u128) | d) >> t) & 0xf == (v >> s) & 0xf) by (bit_vector)
        requires
            d < 16,
            v >> 124u128 == 0,
            s <= 120,
            t == s + 4,
    ;
    assert(((v << 4u128) | d) & 0xf == d) by (bit_vector)
        requires
            d < 16,
    ;
}

/// A value of so many bits that takes one more digit is a value of four bits
/// more.
proof fn lemma_shift_size(v: u128, d: u128, s: u128, t: u128)
    requires
        d < 16,
        s <= 124,
        v >> s == 0,
        t == s + 4,
    ensures
        v >> 124u128 == 0,
        s < 124 ==> ((v << 4u128) | d) >> t == 0,
{
    assert(v >> 124u128 == 0) by (bit_vector)
        requires
            s <= 124,
            v >> s == 0,
    ;
    if s < 124 {
        assert(((v << 4u128) | d) >> t == 0) by (bit_vector)
            requires
                d < 16,
                s < 124,
                v >> s == 0,
                t == s + 4,
        ;
    }
}

/// How many digits stand in the first `i` places of the text.
pub open spec fn digits_within(i: int) -> int {
    if i <= 8 {
        i
    } else if i <= 13 {
        i - 1
    } else if i <= 18 {
        i - 2
    } else if i <= 23 {
        i - 3
    } else {
        i - 4
    }
}

/// Reads the text of an identifier: see `id_value`.
pub fn parse_id(text: &Vec<char>) -> (r: Option<u128>)
    ensures
        r == id_value(text@),
{
    if text.len() != TEXT_LEN {
        assert forall|id: u128| id_text(id) != text@ by {
            assert(id_text(id).len() == TEXT_LEN);
        }
        return None;
    }
    let mut v: u128 = 0;
    let mut i: usize = 0;
    let ghost mut digits: Seq<u128> = Seq::empty();
    assert(v >> 0u128 == 0) by (bit_vector)
        requires
            v == 0,
    ;
    while i < TEXT_LEN
        invariant
            0 <= i <= TEXT_LEN,
            text.len() == TEXT_LEN,
            digits.len() == digits_within(i as int),
            digits.len() < 32 ==> v >> ((4 * digits.len()) as u128) == 0,
            forall|j: int|
                0 <= j < digits.len() ==> #[trigger] digits[j] < 16 && hex_char(digits[j])
                    == text@[place_of_digit(j)] && (v >> ((4 * (digits.len() - 1 - j)) as u128))
                    & 0xf == digits[j],
            forall|p: int| 0 <= p < i && hyphen_at(p) ==> text@[p] == '-',
        decreases TEXT_LEN - i,
    {
        let c = text[i];
        if i == 8 || i == 13 || i == 18 || i == 23 {
            if c != '-' {
                assert forall|id: u128| id_text(id) != text@ by {
                    assert(id_text(id)[i as int] == '-');
                }
                return None;
            }
        } else {
            match hex_of(c) {
                None => {
                    assert forall|id: u128| id_text(id) != text@ by {
                        lemma_hex_char_is_hex(nibble(id, digits_before(i as int)));
                    }
                    return None;
                },
                Some(d) => {
                    let ghost k = digits.len();
                    let ghost before = v;
                    proof {
                        lemma_shift_size(v, d, (4 * k) as u128, (4 * k + 4) as u128);
                        assert forall|j: int| 0 <= j < k implies (((before << 4u128) | d) >> ((4 * (k
                            - j)) as u128)) & 0xf == digits[j] by {
                            lemma_shift_in(
                                before,
                                d,
                                (4 * (k - 1 - j)) as u128,
                                (4 * (k - j)) as u128,
                            );
                        }
                        lemma_shift_in(before, d, 0, 4);
                    }
                    v = (v << 4) | d;
                    proof {
                        digits = digits.push(d);
                        assert(place_of_digit(k as int) == i);
                        assert forall|j: int| 0 <= j < digits.len() implies #[trigger] digits[j] < 16
                            && hex_char(digits[j]) == text@[place_of_digit(j)] && (v >> ((4 * (
                        digits.len() - 1 - j)) as u128)) & 0xf == digits[j] by {
                            if j < k {
                            } else {
                                assert(v >> 0u128 == v) by (bit_vector);
                            }
                        }
                    }
                },
            }
        }
        i += 1;
    }
    proof {
        assert(digits.len() == 32);
        assert forall|p: int| 0 <= p < TEXT_LEN implies id_text(v)[p] == text@[p] by {
            if !hyphen_at(p) {
                let j = digits_before(p);
                assert(place_of_digit(j) == p);
                assert(digits[j] < 16 && hex_char(digits[j]) == text@[place_of_digit(j)]);
                assert(((31 - j) * 4) as u128 == (4 * (digits.len() - 1 - j)) as u128);
            }
        }
        assert(id_text(v) =~= text@);
        lemma_id_round_trip(v);
    }
    Some(v)
}


} // verus!
