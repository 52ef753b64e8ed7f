//! The bytes over which an attribute list is hashed.
//!
//! A number is written as eight bytes, least significant first. A string is written as its UTF-8
//! bytes and a byte that occurs in no UTF-8 text. A list is written as its length and then its
//! elements. A value is written behind a byte that tells its kind.

use crate::key_value::{
    attr_views, string_views, Array, ArrayView, KeyValue, KeyValueView, Value, ValueView,
};
use vstd::prelude::*;
use vstd::utf8::*;

verus! {

/// Ends a string. No UTF-8 text holds this byte.
pub const END_OF_TEXT: u8 = 0xff;

/// A number as eight bytes.
pub open spec fn word_bytes(word: u64) -> Seq<u8> {
    vstd::bytes::spec_u64_to_le_bytes(word)
}

/// A flag as one byte.
pub open spec fn flag_byte(flag: bool) -> u8 {
    if flag {
        1
    } else {
        0
    }
}

/// A string with its end.
pub open spec fn text_bytes(text: Seq<char>) -> Seq<u8> {
    encode_utf8(text).push(END_OF_TEXT)
}

/// Flags, one after the other.
pub open spec fn flags_bytes(s: Seq<bool>) -> Seq<u8> {
    s.map_values(|flag: bool| flag_byte(flag))
}

/// Integers, one after the other.
pub open spec fn integers_bytes(s: Seq<i64>) -> Seq<u8>
    decreases s.len(),
{
    if s.len() == 0 {
        Seq::empty()
    } else {
        integers_bytes(s.drop_last()) + word_bytes(s.last() as u64)
    }
}

/// Words, one after the other.
pub open spec fn words_bytes(s: Seq<u64>) -> Seq<u8>
    decreases s.len(),
{
    if s.len() == 0 {
        Seq::empty()
    } else {
        words_bytes(s.drop_last()) + word_bytes(s.last())
    }
}

/// Strings, one after the other.
pub open spec fn texts_bytes(s: Seq<Seq<char>>) -> Seq<u8>
    decreases s.len(),
{
    if s.len() == 0 {
        Seq::empty()
    } else {
        texts_bytes(s.drop_last()) + text_bytes(s.last())
    }
}

/// The bytes of an attribute value.
pub open spec fn value_bytes(value: ValueView) -> Seq<u8> {
    match value {
        ValueView::Bool(b) => seq![0u8, flag_byte(b)],
        ValueView::I64(i) => seq![1u8] + word_bytes(i as u64),
        ValueView::F64(bits) => seq![2u8] + word_bytes(bits),
        ValueView::String(s) => seq![3u8] + text_bytes(s),
        ValueView::Array(ArrayView::Bool(s)) => seq![4u8] + word_bytes(s.len() as u64)
            + flags_bytes(s),
        ValueView::Array(ArrayView::I64(s)) => seq![5u8] + word_bytes(s.len() as u64)
            + integers_bytes(s),
        ValueView::Array(ArrayView::F64(s)) => seq![6u8] + word_bytes(s.len() as u64)
            + words_bytes(s),
        ValueView::Array(ArrayView::String(s)) => seq![7u8] + word_bytes(s.len() as u64)
            + texts_bytes(s),
    }
}

/// Attributes, one after the other.
pub open spec fn pairs_bytes(s: Seq<KeyValueView>) -> Seq<u8>
    decreases s.len(),
{
    if s.len() == 0 {
        Seq::empty()
    } else {
        pairs_bytes(s.drop_last()) + text_bytes(s.last().key) + value_bytes(s.last().value)
    }
}

/// The bytes of an attribute list.
pub open spec fn attrs_bytes(s: Seq<KeyValueView>) -> Seq<u8> {
    word_bytes(s.len() as u64) + pairs_bytes(s)
}

fn push_word(out: &mut Vec<u8>, word: u64)
    ensures
        final(out)@ == old(out)@ + word_bytes(word),
{
    let mut bytes: Vec<u8> = vstd::bytes::u64_to_le_bytes(word);
    out.append(&mut bytes);
}

fn push_text(out: &mut Vec<u8>, text: &str)
    ensures
        final(out)@ == old(out)@ + text_bytes(text@),
{
    out.extend_from_slice(text.as_bytes());
    out.push(END_OF_TEXT);
    assert(out@ =~= old(out)@ + text_bytes(text@));
}

fn push_flags(out: &mut Vec<u8>, flags: &Vec<bool>)
    ensures
        final(out)@ == old(out)@ + flags_bytes(flags@),
{
    let mut i: usize = 0;
    while i < flags.len()
        invariant
            i <= flags.len(),
            out@ == old(out)@ + flags_bytes(flags@.take(i as int)),
        decreases flags.len() - i,
    {
        out.push(if flags[i] { 1 } else { 0 });
        i += 1;
        assert(flags_bytes(flags@.take(i as int)) =~= flags_bytes(flags@.take(i - 1)).push(
            flag_byte(flags[i - 1]),
        ));
    }
    assert(flags@.take(i as int) =~= flags@);
}

fn push_integers(out: &mut Vec<u8>, integers: &Vec<i64>)
    ensures
        final(out)@ == old(out)@ + integers_bytes(integers@),
{
    let mut i: usize = 0;
    assert(integers@.take(0) =~= Seq::<i64>::empty());
    while i < integers.len()
        invariant
            i <= integers.len(),
            out@ == old(out)@ + integers_bytes(integers@.take(i as int)),
        decreases integers.len() - i,
    {
        push_word(out, integers[i] as u64);
        i += 1;
        assert(integers@.take(i as int).drop_last() =~= integers@.take(i - 1));
    }
    assert(integers@.take(i as int) =~= integers@);
}

fn push_words(out: &mut Vec<u8>, words: &Vec<u64>)
    ensures
        final(out)@ == old(out)@ + words_bytes(words@),
{
    let mut i: usize = 0;
    assert(words@.take(0) =~= Seq::<u64>::empty());
    while i < words.len()
        invariant
            i <= words.len(),
            out@ == old(out)@ + words_bytes(words@.take(i as int)),
        decreases words.len() - i,
    {
        push_word(out, words[i]);
        i += 1;
        assert(words@.take(i as int).drop_last() =~= words@.take(i - 1));
    }
    assert(words@.take(i as int) =~= words@);
}

fn push_texts(out: &mut Vec<u8>, texts: &Vec<String>)
    ensures
        final(out)@ == old(out)@ + texts_bytes(string_views(texts@)),
{
    let ghost views = string_views(texts@);
    let mut i: usize = 0;
    assert(views.take(0) =~= Seq::<Seq<char>>::empty());
    while i < texts.len()
        invariant
            views == string_views(texts@),
            i <= texts.len(),
            out@ == old(out)@ + texts_bytes(views.take(i as int)),
        decreases texts.len() - i,
    {
        push_text(out, texts[i].as_str());
        i += 1;
        assert(views.take(i as int).drop_last() =~= views.take(i - 1));
    }
    assert(views.take(i as int) =~= views);
}

fn push_value(out: &mut Vec<u8>, value: &Value)
    ensures
        final(out)@ == old(out)@ + value_bytes(value@),
{
    match value {
        Value::Bool(b) => {
            out.push(0);
            out.push(if *b { 1 } else { 0 });
        },
        Value::I64(i) => {
            out.push(1);
            push_word(out, *i as u64);
        },
        Value::F64(bits) => {
            out.push(2);
            push_word(out, *bits);
        },
        Value::String(s) => {
            out.push(3);
            push_text(out, s.as_str());
        },
        Value::Array(Array::Bool(v)) => {
            out.push(4);
            push_word(out, v.len() as u64);
            push_flags(out, v);
        },
        Value::Array(Array::I64(v)) => {
            out.push(5);
            push_word(out, v.len() as u64);
            push_integers(out, v);
        },
        Value::Array(Array::F64(v)) => {
            out.push(6);
            push_word(out, v.len() as u64);
            push_words(out, v);
        },
        Value::Array(Array::String(v)) => {
            out.push(7);
            push_word(out, v.len() as u64);
            push_texts(out, v);
        },
    }
    assert(out@ =~= old(out)@ + value_bytes(value@));
}

/// Writes an attribute list as bytes.
pub fn encode_attrs(attrs: &Vec<KeyValue>) -> (bytes: Vec<u8>)
    ensures
        bytes@ == attrs_bytes(attr_views(attrs@)),
{
    let ghost views = attr_views(attrs@);
    let mut bytes: Vec<u8> = Vec::new();
    push_word(&mut bytes, attrs.len() as u64);
    let ghost head = bytes@;
    let mut i: usize = 0;
    assert(views.take(0) =~= Seq::<KeyValueView>::empty());
    while i < attrs.len()
        invariant
            views == attr_views(attrs@),
            i <= attrs.len(),
            bytes@ == head + pairs_bytes(views.take(i as int)),
        decreases attrs.len() - i,
    {
        push_text(&mut bytes, attrs[i].key.as_str());
        push_value(&mut bytes, &attrs[i].value);
        i += 1;
        assert(views.take(i as int).drop_last() =~= views.take(i - 1));
    }
    assert(views.take(i as int) =~= views);
    bytes
}

} // verus!
