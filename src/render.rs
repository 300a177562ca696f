use vstd::prelude::*;
use vstd::string::to_string_from_display_ensures;

verus! {

/// The texts one after another, with `", "` between neighbours.
pub open spec fn joined(texts: Seq<Seq<char>>) -> Seq<char>
    decreases texts.len(),
{
    if texts.len() == 0 {
        Seq::empty()
    } else if texts.len() == 1 {
        texts[0]
    } else {
        joined(texts.drop_last()) + seq![',', ' '] + texts.last()
    }
}

/// `[t1, t2, ..., tn]`, or `[]` for no text.
pub open spec fn bracketed(texts: Seq<Seq<char>>) -> Seq<char> {
    seq!['['] + joined(texts) + seq![']']
}

/// The characters of each string.
pub open spec fn chars_of(texts: Seq<String>) -> Seq<Seq<char>> {
    texts.map_values(|t: String| t@)
}

/// `texts[i]` is what `Display` writes for `items[i]`, for every `i`.
pub open spec fn displays_as<T: std::fmt::Display>(items: Seq<T>, texts: Seq<String>) -> bool {
    &&& texts.len() == items.len()
    &&& forall|i: int|
        0 <= i < items.len() ==> #[trigger] to_string_from_display_ensures::<T>(&items[i], texts[i])
}

/// The rendering of a sequence of items: each item as `Display` writes it,
/// front to back, between brackets and separated by `", "`.
pub open spec fn renders_as<T: std::fmt::Display>(items: Seq<T>, text: Seq<char>) -> bool {
    exists|texts: Seq<String>| displays_as(items, texts) && text == bracketed(chars_of(texts))
}

/// Appends the text of one more item to a rendering under way.
pub(crate) fn append_item<T: std::fmt::Display>(
    out: &mut String,
    texts: Ghost<Seq<String>>,
    items: Ghost<Seq<T>>,
    x: &T,
    first: bool,
) -> (r: Ghost<Seq<String>>)
    requires
        first == (texts@.len() == 0),
        displays_as(items@, texts@),
        old(out)@ == seq!['['] + joined(chars_of(texts@)),
    ensures
        displays_as(items@.push(*x), r@),
        final(out)@ == seq!['['] + joined(chars_of(r@)),
{
    if !first {
        out.append(", ");
    }
    let t = x.to_string();
    out.append(t.as_str());
    let r = Ghost(texts@.push(t));
    proof {
        reveal_strlit(", ");
        assert(chars_of(r@).drop_last() =~= chars_of(texts@));
        assert(items@.push(*x)[items@.len() as int] == *x);
        assert forall|i: int| 0 <= i < items@.len() + 1 implies #[trigger]
            to_string_from_display_ensures::<T>(&items@.push(*x)[i], r@[i]) by {
            if i < items@.len() {
                assert(to_string_from_display_ensures::<T>(&items@[i], texts@[i]));
            }
        }
    }
    r
}

/// Closes a rendering under way.
pub(crate) fn finish(out: &mut String, texts: Ghost<Seq<String>>)
    requires
        old(out)@ == seq!['['] + joined(chars_of(texts@)),
    ensures
        final(out)@ == bracketed(chars_of(texts@)),
{
    out.append("]");
    proof {
        reveal_strlit("]");
    }
}

/// Opens a rendering.
pub(crate) fn start() -> (r: String)
    ensures
        r@ == seq!['['] + joined(chars_of(Seq::<String>::empty())),
{
    let mut out = String::new();
    out.append("[");
    proof {
        reveal_strlit("[");
        assert(chars_of(Seq::<String>::empty()) =~= Seq::<Seq<char>>::empty());
        assert(out@ =~= seq!['['] + joined(chars_of(Seq::<String>::empty())));
    }
    out
}

} // verus!
