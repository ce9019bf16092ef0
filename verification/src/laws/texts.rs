//! What the texts, the names and their order are.

use vstd::prelude::*;

use crate::identifier;
use crate::names;
use crate::names::{NameView, SpaceView};
use crate::naming;
use crate::shape::Shape;
use crate::text;

verus! {

/// A text comes before another one exactly where they first differ by a smaller character, or
/// where it ends first.
pub proof fn law_text_order(a: Seq<char>, b: Seq<char>)
    ensures
        text::text_before(a, b) <==> exists|k: int|
            0 <= k <= a.len() && k < b.len() && (forall|m: int|
                0 <= m < k ==> #[trigger] a[m] == b[m]) && (k == a.len() || a[k] < b[k])
                && #[trigger] is_place(k),
    decreases a.len(),
{
    let differ = |k: int|
        0 <= k <= a.len() && k < b.len() && (forall|m: int| 0 <= m < k ==> #[trigger] a[m] == b[m])
            && (k == a.len() || a[k] < b[k]);
    if b.len() == 0 {
    } else if a.len() == 0 {
        assert(differ(0) && is_place(0));
    } else if a[0] != b[0] {
        if a[0] < b[0] {
            assert(differ(0) && is_place(0));
        } else if exists|k: int| differ(k) && #[trigger] is_place(k) {
            let k = choose|k: int| differ(k) && #[trigger] is_place(k);
            assert(k == 0 || a[0] == b[0]);
        }
    } else {
        let x = a.drop_first();
        let y = b.drop_first();
        law_text_order(x, y);
        if text::text_before(x, y) {
            let k = choose|k: int|
                0 <= k <= x.len() && k < y.len() && (forall|m: int|
                    0 <= m < k ==> #[trigger] x[m] == y[m]) && (k == x.len() || x[k] < y[k])
                    && #[trigger] is_place(k);
            assert forall|m: int| 0 <= m < k + 1 implies #[trigger] a[m] == b[m] by {
                if m > 0 {
                    assert(x[m - 1] == y[m - 1]);
                }
            }
            assert(differ(k + 1) && is_place(k + 1));
        }
        if exists|k: int| differ(k) && #[trigger] is_place(k) {
            let k = choose|k: int| differ(k) && #[trigger] is_place(k);
            assert(k > 0);
            assert forall|m: int| 0 <= m < k - 1 implies #[trigger] x[m] == y[m] by {
                assert(a[m + 1] == b[m + 1]);
            }
            assert(is_place(k - 1));
        }
    }
}

/// A place in a text.
pub open spec fn is_place(k: int) -> bool {
    true
}

/// Names are ordered by namespace, the root before all others, and within a namespace by text.
pub proof fn law_name_order(a: NameView, b: NameView)
    ensures
        names::name_before(a, b) <==> match (a.namespace, b.namespace) {
            (SpaceView::Root, SpaceView::Root) => text::text_before(a.name, b.name),
            (SpaceView::Root, SpaceView::Named(_)) => true,
            (SpaceView::Named(_), SpaceView::Root) => false,
            (SpaceView::Named(x), SpaceView::Named(y)) => text::text_before(x, y) || x == y
                && text::text_before(a.name, b.name),
        },
{
    if let (SpaceView::Named(x), SpaceView::Named(y)) = (a.namespace, b.namespace) {
        text::lemma_text_irreflexive(x);
    }
}

/// The number that decimal digits stand for.
pub open spec fn value_of(digits: Seq<char>) -> int
    decreases digits.len(),
{
    if digits.len() == 0 {
        0
    } else {
        10 * value_of(digits.drop_last()) + (digits.last() as u32 - '0' as u32)
    }
}

/// The decimal text of a number is made of digits, stands for the number and has no zero in
/// front, but for that of zero.
pub proof fn law_decimal(n: nat)
    ensures
        value_of(text::decimal(n)) == n,
        forall|k: int|
            0 <= k < text::decimal(n).len() ==> '0' <= #[trigger] text::decimal(n)[k] <= '9',
        text::decimal(n).len() > 0,
        text::decimal(n)[0] == '0' ==> text::decimal(n).len() == 1,
    decreases n,
{
    let digits = text::decimal(n);
    if n < 10 {
        assert(digits.drop_last() =~= Seq::<char>::empty());
        assert(value_of(digits.drop_last()) == 0);
    } else {
        law_decimal(n / 10);
        assert(digits.drop_last() =~= text::decimal(n / 10));
        assert(digits[0] == text::decimal(n / 10)[0]);
        if digits[0] == '0' {
            assert(text::decimal(n / 10).len() == 1);
            assert(text::decimal(n / 10).drop_last() =~= Seq::<char>::empty());
            assert(value_of(text::decimal(n / 10).drop_last()) == 0);
            assert(n / 10 == 0);
        }
    }
}

/// A text is all digits exactly if it holds no other character.
pub proof fn law_all_digits(text: Seq<char>)
    ensures
        text::all_digits(text) <==> !exists|k: int|
            0 <= k < text.len() && (#[trigger] text[k] < '0' || text[k] > '9'),
{
    if text::all_digits(text) {
        assert forall|k: int| 0 <= k < text.len() implies !(#[trigger] text[k] < '0' || text[k]
            > '9') by {
            assert(text::is_digit(text[k]));
        }
    }
}

/// How namespaces and names are written.
pub proof fn law_written_names(space: Seq<char>, name: Seq<char>)
    ensures
        names::space_text(SpaceView::Root) == "ROOT"@,
        names::space_text(SpaceView::Named(space)) == space,
        names::name_text(NameView { namespace: SpaceView::Root, name }) == name,
        names::name_text(NameView { namespace: SpaceView::Named(space), name }) == space + "::"@
            + name,
        names::root_name(name) == (NameView { namespace: SpaceView::Root, name }),
{
}

/// The path of a type ends in its full name, and begins with its module where that is known.
pub proof fn law_path(shape: Shape)
    ensures
        shape.module matches Some(path) ==> naming::path_text(shape) == path@ + "::"@
            + shape.display@,
        shape.module is None ==> naming::path_text(shape) == shape.display@,
{
}

/// A namespace is an identifier if `regex` matches it against a letter or an underscore and then
/// any word characters, from its beginning to its end.
pub proof fn law_identifier(text: Seq<char>)
    ensures
        identifier::is_identifier(text) <==> identifier::regex_is_match(
            r"^[a-zA-Z_]\w*$"@,
            text,
        ) == Some(true),
{
}

/// What the ASCII characters of an identifier are.
pub proof fn law_ascii_identifier(text: Seq<char>)
    ensures
        identifier::is_ascii_identifier(text) <==> text.len() > 0 && !('0' <= text[0] <= '9')
            && forall|k: int|
            0 <= k < text.len() ==> {
                ||| 'a' <= #[trigger] text[k] <= 'z'
                ||| 'A' <= text[k] <= 'Z'
                ||| '0' <= text[k] <= '9'
                ||| text[k] == '_'
            },
{
    if identifier::is_ascii_identifier(text) {
        assert forall|k: int| 0 <= k < text.len() implies {
            ||| 'a' <= #[trigger] text[k] <= 'z'
            ||| 'A' <= text[k] <= 'Z'
            ||| '0' <= text[k] <= '9'
            ||| text[k] == '_'
        } by {
            assert(identifier::is_ascii_word(text[k]));
        }
    }
}

} // verus!
