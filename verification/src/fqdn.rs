//! Fully qualified domain names in presentation form.

use vstd::prelude::*;
use vstd::string::is_ascii_spec_bytes;
use vstd::utf8::is_ascii_chars;
use crate::bytes::lemma_span;
use crate::bytes::lemma_span_is_first;
use crate::bytes::span;
use crate::bytes::span_from;
use crate::canonical::same_text;
use crate::decimal::decimal;
use crate::decimal::digit;
use crate::decimal::lemma_decimal_digits;
use crate::decimal::push_decimal;

verus! {

/// Every dot of `name` ends a label that is not empty; only the dot that is
/// the whole name of the root ends none.
pub open spec fn labels_not_empty(name: Seq<char>) -> bool {
    forall|i: int|
        0 <= i < name.len() && #[trigger] name[i] == '.' ==> if i == 0 {
            name.len() == 1
        } else {
            name[i - 1] != '.'
        }
}

/// `name` is a fully qualified domain name: ASCII text that ends in a dot
/// and has no empty label.
pub open spec fn well_formed(name: Seq<char>) -> bool {
    &&& is_ascii_chars(name)
    &&& name.len() > 0
    &&& name.last() == '.'
    &&& labels_not_empty(name)
}

/// Why a text is no fully qualified domain name.
#[derive(Clone, Copy, Debug, PartialEq, Eq, Structural)]
pub enum FqdnError {
    /// It holds a character that is not ASCII.
    NotAscii,
    /// It does not end in a dot.
    NoTrailingDot,
    /// It has an empty label: it starts with a dot without being the root,
    /// or it has two dots in a row.
    EmptyLabel,
}

/// The outcome of reading `name` as a fully qualified domain name.
pub open spec fn checked(name: Seq<char>) -> Result<(), FqdnError> {
    if !is_ascii_chars(name) {
        Err(FqdnError::NotAscii)
    } else if name.len() == 0 || name.last() != '.' {
        Err(FqdnError::NoTrailingDot)
    } else if !labels_not_empty(name) {
        Err(FqdnError::EmptyLabel)
    } else {
        Ok(())
    }
}

/// The name of the zone above `name`: what follows the first label, and the
/// root above a name of one label. Nothing is above the root.
pub open spec fn parent_of(name: Seq<char>) -> Option<Seq<char>> {
    if name.len() <= 1 {
        None
    } else if span(name, '.') + 1 >= name.len() {
        Some(seq!['.'])
    } else {
        Some(name.skip(span(name, '.') as int + 1))
    }
}

/// A fully qualified domain name.
#[derive(Clone, Debug, PartialEq, Eq)]
pub struct FQDN {
    inner: String,
}

impl View for FQDN {
    type V = Seq<char>;

    closed spec fn view(&self) -> Seq<char> {
        self.inner@
    }
}

impl FQDN {
    /// The name is well-formed.
    pub open spec fn wf(&self) -> bool {
        well_formed(self@)
    }

    /// Reads `text` as a fully qualified domain name.
    pub fn new(text: &str) -> (name: Result<FQDN, FqdnError>)
        ensures
            name is Ok <==> well_formed(text@),
            name is Ok ==> name->Ok_0@ == text@,
            name is Err ==> checked(text@) == Err::<(), FqdnError>(name->Err_0),
    {
        if !text.is_ascii() {
            return Err(FqdnError::NotAscii);
        }
        let bytes = text.as_bytes();
        proof {
            is_ascii_spec_bytes(text);
        }
        let len: usize = bytes.len();
        if len == 0 || bytes[len - 1] != 46 {
            return Err(FqdnError::NoTrailingDot);
        }
        let mut i: usize = 0;
        while i < len
            invariant
                len == text@.len(),
                len > 0,
                text@.last() == '.',
                is_ascii_chars(text@),
                bytes@ == Seq::new(text@.len(), |k: int| text@[k] as u8),
                i <= len,
                forall|k: int|
                    0 <= k < i && #[trigger] text@[k] == '.' ==> if k == 0 {
                        text@.len() == 1
                    } else {
                        text@[k - 1] != '.'
                    },
            decreases len - i,
        {
            if bytes[i] == 46 {
                let fine = if i == 0 {
                    len == 1
                } else {
                    bytes[i - 1] != 46
                };
                if !fine {
                    proof {
                        assert(text@[i as int] == '.');
                        if i > 0 {
                            assert(text@[i - 1] == '.');
                        }
                        assert(!labels_not_empty(text@));
                    }
                    return Err(FqdnError::EmptyLabel);
                }
            }
            i += 1;
        }
        Ok(FQDN { inner: text.to_owned() })
    }

    /// Returns the name as text.
    pub fn as_str(&self) -> (text: &str)
        ensures
            text@ == self@,
    {
        self.inner.as_str()
    }

    /// Returns a copy of the name.
    pub fn duplicate(&self) -> (name: FQDN)
        ensures
            name == *self,
    {
        FQDN { inner: self.inner.clone() }
    }

    /// Tells whether this is the name of the root.
    pub fn is_root(&self) -> (root: bool)
        requires
            self.wf(),
        ensures
            root == (self@ == seq!['.']),
    {
        let root = self.inner.as_str().unicode_len() == 1;
        proof {
            if root {
                assert(self@ =~= seq!['.']);
            }
        }
        root
    }

    /// Tells whether `other` is the same name.
    pub fn same_as(&self, other: &FQDN) -> (same: bool)
        ensures
            same == (self@ == other@),
    {
        same_text(self.inner.as_str(), other.inner.as_str())
    }

    /// Returns the name of the zone above this one, if this is not the root.
    pub fn parent(&self) -> (parent: Option<FQDN>)
        requires
            self.wf(),
        ensures
            parent is Some <==> self@ != seq!['.'],
            parent is Some ==> parent_of(self@) == Some(parent->Some_0@) && parent->Some_0.wf(),
            parent is None ==> parent_of(self@) is None,
    {
        let text = self.inner.as_str();
        let bytes = text.as_bytes();
        proof {
            is_ascii_spec_bytes(text);
        }
        let len: usize = bytes.len();
        if len == 1 {
            assert(self@ =~= seq!['.']);
            return None;
        }
        let dot = span_from(bytes, 0, 46);
        proof {
            assert(bytes@.skip(0) =~= bytes@);
            lemma_span_is_first(bytes@, 46);
            assert(bytes@[len - 1] == 46);
            assert(self@[dot as int] == '.');
            assert forall|k: int| 0 <= k < dot implies self@[k] != '.' by {
                assert(bytes@[k] != 46);
            }
            lemma_span(self@, '.', dot as int);
        }
        if dot + 1 == len {
            let root = FQDN { inner: String::from_str(".") };
            proof {
                reveal_strlit(".");
                assert(root@ =~= seq!['.']);
            }
            Some(root)
        } else {
            let rest = text.substring_ascii(dot + 1, len);
            proof {
                let up = self@.skip(dot + 1);
                assert(rest@ =~= up);
                assert forall|i: int| 0 <= i < up.len() && #[trigger] up[i] == '.' implies if i
                    == 0 {
                    up.len() == 1
                } else {
                    up[i - 1] != '.'
                } by {
                    assert(self@[dot + 1 + i] == '.');
                }
            }
            Some(FQDN { inner: rest.to_owned() })
        }
    }
}

/// The zone `name` and the zones above it, up to the root.
pub open spec fn chain(name: Seq<char>) -> Seq<Seq<char>>
    decreases name.len(),
{
    match parent_of(name) {
        Some(up) => if up.len() < name.len() {
            seq![name] + chain(up)
        } else {
            seq![name]
        },
        None => seq![name],
    }
}

/// The names of a list of domain names.
pub open spec fn names(list: Seq<FQDN>) -> Seq<Seq<char>> {
    Seq::new(list.len(), |i: int| list[i]@)
}

/// Every name of the list is well-formed.
pub open spec fn all_well_formed(list: Seq<FQDN>) -> bool {
    forall|i: int| 0 <= i < list.len() ==> (#[trigger] list[i]).wf()
}

/// The name of the zone in which the nameservers of the harness have their
/// names.
pub open spec fn nameservers_zone() -> Seq<char> {
    "nameservers.com."@
}

/// The name of the zone of the harness's nameservers is well-formed.
pub proof fn lemma_nameservers_zone()
    ensures
        well_formed(nameservers_zone()),
{
    reveal_strlit("nameservers.com.");
}

/// The name of the nameserver with the number `count`.
pub open spec fn nameserver_fqdn(count: nat) -> Seq<char> {
    "primary"@ + decimal(count) + ".nameservers.com."@
}

impl FQDN {
    /// Returns the name of the zone in which the nameservers of the harness
    /// have their names, `nameservers.com.`.
    pub fn nameservers() -> (name: FQDN)
        ensures
            name@ == nameservers_zone(),
            name.wf(),
    {
        proof {
            lemma_nameservers_zone();
        }
        FQDN { inner: "nameservers.com.".to_owned() }
    }

    /// Returns the name of the nameserver with the number `count`.
    pub fn nameserver(count: usize) -> (name: FQDN)
        ensures
            name@ == nameserver_fqdn(count as nat),
            name.wf(),
    {
        let mut text = String::from_str("primary");
        push_decimal(&mut text, count as u64);
        text.append(".nameservers.com.");
        proof {
            reveal_strlit("primary");
            reveal_strlit(".nameservers.com.");
            lemma_decimal_digits(count as nat);
            let head = "primary"@;
            let digits = decimal(count as nat);
            let tail = ".nameservers.com."@;
            let name = text@;
            assert(name =~= head + digits + tail);
            assert forall|i: int| 0 <= i < name.len() implies '\0' <= #[trigger] name[i]
                <= '\u{7f}' && (name[i] == '.' ==> i > 0 && name[i - 1] != '.') by {
                if head.len() <= i < head.len() + digits.len() {
                    let d = choose|d: nat| d < 10 && digits[i - head.len()] == digit(d);
                } else if i == head.len() + digits.len() {
                    let last = digits[digits.len() - 1];
                    let d = choose|d: nat| d < 10 && last == digit(d);
                    assert(name[i - 1] == last);
                }
            }
        }
        FQDN { inner: text }
    }

    /// Returns the name and the names of the zones above it, up to the
    /// root.
    pub fn ancestors(&self) -> (list: Vec<FQDN>)
        requires
            self.wf(),
        ensures
            names(list@) == chain(self@),
            all_well_formed(list@),
            list@.len() > 0,
            list@[0] == *self,
            list@.last()@ == seq!['.'],
    {
        let mut list: Vec<FQDN> = Vec::new();
        list.push(self.duplicate());
        loop
            invariant
                self.wf(),
                list@.len() > 0,
                all_well_formed(list@),
                list@[0] == *self,
                chain(self@) == names(list@.drop_last()) + chain(list@.last()@),
            ensures
                names(list@) == chain(self@),
                all_well_formed(list@),
                list@.len() > 0,
                list@[0] == *self,
                list@.last()@ == seq!['.'],
            decreases list@.last()@.len(),
        {
            let ghost before = list@;
            let last: usize = list.len() - 1;
            match list[last].parent() {
                None => {
                    proof {
                        assert(before.drop_last().push(before.last()) =~= before);
                        assert(names(before) =~= names(before.drop_last()) + seq![before.last()@]);
                    }
                    break ;
                },
                Some(up) => {
                    proof {
                        lemma_parent(before.last()@);
                    }
                    list.push(up);
                    proof {
                        assert(list@.drop_last() =~= before);
                        assert(before.drop_last().push(before.last()) =~= before);
                        assert(names(before) =~= names(before.drop_last()) + seq![before.last()@]);
                        assert(names(before.drop_last()) + (seq![before.last()@] + chain(up@))
                            =~= names(before) + chain(up@));
                    }
                },
            }
        }
        list
    }
}

/// A well-formed name has a zone above it unless it is the name of the
/// root, and the name of that zone is well-formed and shorter.
pub proof fn lemma_parent(name: Seq<char>)
    requires
        well_formed(name),
    ensures
        parent_of(name) is Some <==> name != seq!['.'],
        parent_of(name) is Some ==> well_formed(parent_of(name)->Some_0) && parent_of(
            name,
        )->Some_0.len() < name.len(),
{
    if name.len() == 1 {
        assert(name =~= seq!['.']);
    } else {
        lemma_span_is_first(name, '.');
        let dot = span(name, '.') as int;
        assert(name[0] != '.') by {
            if name[0] == '.' {
                assert(name.len() == 1);
            }
        }
        assert(name != seq!['.']);
        if dot + 1 < name.len() {
            let up = name.skip(dot + 1);
            assert forall|i: int| 0 <= i < up.len() && #[trigger] up[i] == '.' implies if i == 0 {
                up.len() == 1
            } else {
                up[i - 1] != '.'
            } by {
                assert(name[dot + 1 + i] == '.');
            }
            assert forall|i: int| 0 <= i < up.len() implies '\0' <= #[trigger] up[i]
                <= '\u{7f}' by {
                assert(up[i] == name[dot + 1 + i]);
            }
        }
    }
}

/// The chain of a well-formed name starts with the name and ends with the
/// root, which stands nowhere else in it; its names are well-formed, and
/// each one is followed by the name of the zone above it.
pub proof fn lemma_chain(name: Seq<char>)
    requires
        well_formed(name),
    ensures
        chain(name).len() >= 1,
        chain(name)[0] == name,
        chain(name).last() == seq!['.'],
        forall|k: int| 0 <= k < chain(name).len() ==> well_formed(#[trigger] chain(name)[k]),
        forall|k: int|
            0 <= k < chain(name).len() - 1 ==> parent_of(#[trigger] chain(name)[k]) == Some(
                chain(name)[k + 1],
            ),
        forall|k: int|
            0 <= k < chain(name).len() - 1 ==> #[trigger] chain(name)[k] != seq!['.'],
    decreases name.len(),
{
    lemma_parent(name);
    if parent_of(name) is Some {
        let up = parent_of(name)->Some_0;
        lemma_chain(up);
        let rest = chain(up);
        let whole = chain(name);
        assert(whole == seq![name] + rest);
        assert forall|k: int| 0 <= k < whole.len() implies well_formed(#[trigger] whole[k]) by {
            if k > 0 {
                assert(whole[k] == rest[k - 1]);
            }
        }
        assert forall|k: int| 0 <= k < whole.len() - 1 implies parent_of(#[trigger] whole[k])
            == Some(whole[k + 1]) && whole[k] != seq!['.'] by {
            assert(whole[k + 1] == rest[k]);
            if k > 0 {
                assert(whole[k] == rest[k - 1]);
            }
        }
    }
}

} // verus!
