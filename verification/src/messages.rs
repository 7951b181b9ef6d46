//! Texts shown to the user: completion details and diagnostic messages.

use vstd::prelude::*;
use vstd::string::*;
use crate::text::{bytes_of, last_index_of, last_index_of_byte, lemma_str_valid, push_str, str_slice};

verus! {

broadcast use vstd::seq_lib::group_seq_properties;

/// The detail of a method completion: `Owner#name : signature` for an
/// instance method, `Owner.name : signature` for a singleton method, where
/// the signature is the method's rendered lens signature.
pub open spec fn completion_detail(owner: Seq<u8>, name: Seq<u8>, is_singleton: bool, sig: Seq<u8>) -> Seq<u8> {
    owner + (if is_singleton {
        ".".spec_bytes()
    } else {
        "#".spec_bytes()
    }) + name + " : ".spec_bytes() + sig
}

/// The detail line of a method completion item, from the owner class, the
/// method name, whether it is a singleton method and its rendered signature.
pub fn method_completion_detail(owner_class: &str, name: &str, is_singleton: bool, sig_display: &str) -> (r: String)
    ensures
        bytes_of(r) == completion_detail(
            owner_class.spec_bytes(),
            name.spec_bytes(),
            is_singleton,
            sig_display.spec_bytes(),
        ),
{
    let separator = if is_singleton {
        "."
    } else {
        "#"
    };
    let mut out = String::new();
    proof {
        assert(bytes_of(out) =~= Seq::<u8>::empty());
    }
    push_str(&mut out, owner_class);
    push_str(&mut out, separator);
    push_str(&mut out, name);
    push_str(&mut out, " : ");
    push_str(&mut out, sig_display);
    proof {
        assert(bytes_of(out) =~= completion_detail(
            owner_class.spec_bytes(),
            name.spec_bytes(),
            is_singleton,
            sig_display.spec_bytes(),
        ));
    }
    out
}

/// The message of a missing-method diagnostic: with `Owner#method` as the
/// unresolved method (split at its last `#`), ``Method `method` not found for
/// `Owner` ``; otherwise ``Method `name` not found``.
pub open spec fn missing_method_message(method_name: Seq<u8>, unresolved: Seq<u8>) -> Seq<u8> {
    match last_index_of_byte(unresolved, 0, unresolved.len() as int, 0x23u8) {
        Some(h) => "Method `".spec_bytes() + unresolved.subrange(h + 1, unresolved.len() as int)
            + "` not found for `".spec_bytes() + unresolved.subrange(0, h) + "`".spec_bytes(),
        None => "Method `".spec_bytes() + method_name + "` not found".spec_bytes(),
    }
}

/// The message of a diagnostic for a call to a method that was not found.
pub fn missing_method_diagnostic_message(method_name: &str, unresolved_method: &str) -> (r: String)
    ensures
        bytes_of(r) == missing_method_message(method_name.spec_bytes(), unresolved_method.spec_bytes()),
{
    let b = unresolved_method.as_bytes();
    let mut out = String::new();
    proof {
        assert(bytes_of(out) =~= Seq::<u8>::empty());
        lemma_str_valid(unresolved_method);
    }
    match last_index_of(b, 0, b.len(), 0x23) {
        Some(h) => {
            proof {
                crate::text::lemma_ascii_at(b@, h as int);
                crate::text::lemma_after_ascii(b@, h as int);
            }
            let owner = str_slice(unresolved_method, 0, h);
            let method = str_slice(unresolved_method, h + 1, b.len());
            push_str(&mut out, "Method `");
            push_str(&mut out, method);
            push_str(&mut out, "` not found for `");
            push_str(&mut out, owner);
            push_str(&mut out, "`");
        },
        None => {
            push_str(&mut out, "Method `");
            push_str(&mut out, method_name);
            push_str(&mut out, "` not found");
        },
    }
    proof {
        assert(bytes_of(out) =~= missing_method_message(
            method_name.spec_bytes(),
            unresolved_method.spec_bytes(),
        ));
    }
    out
}

} // verus!

verus! {

/// The decimal digits of `n`.
pub open spec fn decimal(n: nat) -> Seq<u8>
    decreases n,
{
    if n < 10 {
        seq![(0x30 + n) as u8]
    } else {
        decimal(n / 10) + seq![(0x30 + n % 10) as u8]
    }
}

/// The decimal digits of `n`, padded with `0` on the left to at least
/// `width` digits.
pub open spec fn zero_padded(n: nat, width: nat) -> Seq<u8> {
    let d = decimal(n);
    if d.len() < width {
        Seq::new((width - d.len()) as nat, |i: int| 0x30u8) + d
    } else {
        d
    }
}

/// The sort text of the completion item at position `idx`: the index,
/// zero-padded to four digits, `_` and the label, so that items keep their
/// order.
pub open spec fn sort_text(idx: nat, label: Seq<u8>) -> Seq<u8> {
    zero_padded(idx, 4) + seq![0x5fu8] + label
}

proof fn lemma_decimal_ascii(n: nat)
    ensures
        1 <= decimal(n).len(),
        forall|i: int| 0 <= i < decimal(n).len() ==> 0x30 <= #[trigger] decimal(n)[i] <= 0x39,
    decreases n,
{
    if n >= 10 {
        lemma_decimal_ascii(n / 10);
    }
}

/// Appends the decimal digits of `n`.
fn push_decimal(out: &mut Vec<u8>, n: usize)
    ensures
        final(out)@ == old(out)@ + decimal(n as nat),
    decreases n,
{
    if n >= 10 {
        push_decimal(out, n / 10);
    }
    let digit = (n % 10) as u8;
    out.push(0x30 + digit);
    proof {
        if n >= 10 {
            assert(final(out)@ =~= old(out)@ + decimal(n as nat));
        } else {
            assert(final(out)@ =~= old(out)@ + decimal(n as nat));
        }
    }
}

/// Bytes below `0x80` are valid UTF-8.
proof fn lemma_ascii_valid(v: Seq<u8>)
    requires
        forall|i: int| 0 <= i < v.len() ==> #[trigger] v[i] < 0x80,
    ensures
        vstd::utf8::valid_utf8(v),
{
    assert(v.subrange(0, 0) =~= Seq::<u8>::empty());
    assert(vstd::utf8::partial_valid_utf8(v, 0));
    vstd::utf8::partial_valid_utf8_extend_ascii_block(v, 0, v.len() as int);
    assert(v.subrange(0, v.len() as int) =~= v);
}

/// The sort text of the completion item at position `idx` with `label`.
pub fn completion_sort_text(idx: usize, label: &str) -> (r: String)
    ensures
        bytes_of(r) == sort_text(idx as nat, label.spec_bytes()),
{
    let mut digits: Vec<u8> = Vec::new();
    push_decimal(&mut digits, idx);
    proof {
        assert(digits@ =~= decimal(idx as nat));
        lemma_decimal_ascii(idx as nat);
    }
    let mut padded: Vec<u8> = Vec::new();
    let mut k = digits.len();
    while k < 4
        invariant
            digits.len() <= k <= 4 || (k == digits.len() && k > 4),
            padded@ =~= Seq::new((k - digits@.len()) as nat, |i: int| 0x30u8),
        decreases 4 - k,
    {
        padded.push(0x30);
        k = k + 1;
    }
    let mut j: usize = 0;
    let ghost pad_len = padded@.len();
    while j < digits.len()
        invariant
            j <= digits@.len(),
            digits@ == decimal(idx as nat),
            padded@.len() == pad_len + j,
            padded@.subrange(0, pad_len as int) =~= Seq::new(pad_len, |i: int| 0x30u8),
            padded@.subrange(pad_len as int, padded@.len() as int) =~= digits@.take(j as int),
        decreases digits@.len() - j,
    {
        padded.push(digits[j]);
        j = j + 1;
    }
    padded.push(0x5f);
    proof {
        assert(padded@ =~= zero_padded(idx as nat, 4) + seq![0x5fu8]);
        assert forall|i: int| 0 <= i < padded@.len() implies #[trigger] padded@[i] < 0x80 by {
            if pad_len <= i < padded@.len() - 1 {
                assert(padded@[i] == decimal(idx as nat)[i - pad_len]);
            }
        }
        lemma_ascii_valid(padded@);
    }
    let mut out = match crate::text::utf8_string(padded) {
        Some(s) => s,
        None => {
            proof {
                assert(false);
            }
            String::new()
        },
    };
    push_str(&mut out, label);
    out
}

/// The kind of a constant offered for completion.
#[derive(Clone, Copy, Debug, PartialEq, Eq, Structural)]
pub enum ConstantCompletionKind {
    Class,
    Module,
    Constant,
}

/// The detail of a constant completion: `class Full::Name`, `module
/// Full::Name`, or for a constant its full name with ` : type` when its type
/// is known.
pub open spec fn constant_detail(kind: ConstantCompletionKind, full_name: Seq<u8>, ty: Option<Seq<u8>>) -> Seq<u8> {
    match kind {
        ConstantCompletionKind::Class => "class ".spec_bytes() + full_name,
        ConstantCompletionKind::Module => "module ".spec_bytes() + full_name,
        ConstantCompletionKind::Constant => match ty {
            Some(t) => full_name + " : ".spec_bytes() + t,
            None => full_name,
        },
    }
}

/// The detail line of a constant completion item, from the kind of the
/// constant, its full name and, for a constant, its rendered type.
pub fn constant_completion_detail(kind: ConstantCompletionKind, full_name: &str, type_display: Option<&str>) -> (r: String)
    ensures
        bytes_of(r) == constant_detail(
            kind,
            full_name.spec_bytes(),
            match type_display {
                Some(t) => Some(t.spec_bytes()),
                None => None,
            },
        ),
{
    let mut out = String::new();
    proof {
        assert(bytes_of(out) =~= Seq::<u8>::empty());
    }
    match kind {
        ConstantCompletionKind::Class => {
            push_str(&mut out, "class ");
            push_str(&mut out, full_name);
        },
        ConstantCompletionKind::Module => {
            push_str(&mut out, "module ");
            push_str(&mut out, full_name);
        },
        ConstantCompletionKind::Constant => {
            push_str(&mut out, full_name);
            if let Some(t) = type_display {
                push_str(&mut out, " : ");
                push_str(&mut out, t);
            }
        },
    }
    proof {
        assert(bytes_of(out) =~= constant_detail(
            kind,
            full_name.spec_bytes(),
            match type_display {
                Some(t) => Some(t.spec_bytes()),
                None => None,
            },
        ));
    }
    out
}

} // verus!
