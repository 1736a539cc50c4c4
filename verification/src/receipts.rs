//! Signed receipts: when an order came in, in a form that anyone can check.

use crate::bytes::{
    be8, law_be8_injective, lemma_be8_len, push_be8, push_bytes, push_id, Id32,
};
use crate::clock::unix_micros;
use crate::types::OrderSide;
use ed25519_dalek::{Signature, Signer, SigningKey, Verifier, VerifyingKey};
use vstd::prelude::*;
use vstd::utf8::encode_utf8;

verus! {

/// Proof of when an order was received, signed before it was matched.
#[derive(Clone, Debug)]
pub struct OrderReceipt {
    pub order_id: Id32,
    pub trader: Id32,
    pub symbol: String,
    pub side: OrderSide,
    pub price: u64,
    pub amount: u64,
    pub nonce: u64,
    pub expiry: u64,
    pub received_at_us: u64,
    pub node_pubkey: Id32,
    pub signature: Vec<u8>,
}

/// What an [`OrderReceipt`] stands for.
#[verifier::ext_equal]
pub struct ReceiptSpec {
    pub order_id: Id32,
    pub trader: Id32,
    pub symbol: Seq<char>,
    pub side: OrderSide,
    pub price: u64,
    pub amount: u64,
    pub nonce: u64,
    pub expiry: u64,
    pub received_at_us: u64,
    pub node_pubkey: Seq<u8>,
    pub signature: Seq<u8>,
}

impl View for OrderReceipt {
    type V = ReceiptSpec;

    open spec fn view(&self) -> ReceiptSpec {
        ReceiptSpec {
            order_id: self.order_id,
            trader: self.trader,
            symbol: self.symbol@,
            side: self.side,
            price: self.price,
            amount: self.amount,
            nonce: self.nonce,
            expiry: self.expiry,
            received_at_us: self.received_at_us,
            node_pubkey: self.node_pubkey@,
            signature: self.signature@,
        }
    }
}

impl OrderReceipt {
    /// An equal receipt.
    pub fn duplicate(&self) -> (r: OrderReceipt)
        ensures
            r@ == self@,
    {
        OrderReceipt {
            order_id: self.order_id,
            trader: self.trader,
            symbol: self.symbol.clone(),
            side: self.side,
            price: self.price,
            amount: self.amount,
            nonce: self.nonce,
            expiry: self.expiry,
            received_at_us: self.received_at_us,
            node_pubkey: self.node_pubkey,
            signature: self.signature.clone(),
        }
    }
}

/// The receipts of a list, each by its view.
pub open spec fn receipts_view(s: Seq<OrderReceipt>) -> Seq<ReceiptSpec> {
    Seq::new(s.len(), |i: int| s[i]@)
}

/// The byte that a side is written as.
pub open spec fn side_byte(side: OrderSide) -> u8 {
    match side {
        OrderSide::Buy => 0,
        OrderSide::Sell => 1,
    }
}

/// The bytes that a receipt's signature is over: everything but the key and the signature, each
/// field but the symbol of fixed width.
pub open spec fn message_of(r: ReceiptSpec) -> Seq<u8> {
    r.order_id@ + r.trader@ + encode_utf8(r.symbol) + seq![side_byte(r.side)] + be8(r.price)
        + be8(r.amount) + be8(r.nonce) + be8(r.expiry) + be8(r.received_at_us)
}

/// The bytes that a receipt's signature is over.
pub fn receipt_message(
    order_id: &Id32,
    trader: &Id32,
    symbol: &str,
    side: OrderSide,
    price: u64,
    amount: u64,
    nonce: u64,
    expiry: u64,
    received_at_us: u64,
) -> (r: Vec<u8>)
    ensures
        r@ == order_id@ + trader@ + encode_utf8(symbol@) + seq![side_byte(side)] + be8(price)
            + be8(amount) + be8(nonce) + be8(expiry) + be8(received_at_us),
{
    let mut msg: Vec<u8> = Vec::new();
    push_id(&mut msg, order_id);
    push_id(&mut msg, trader);
    push_bytes(&mut msg, symbol.as_bytes());
    let b: u8 = match side {
        OrderSide::Buy => 0,
        OrderSide::Sell => 1,
    };
    msg.push(b);
    push_be8(&mut msg, price);
    push_be8(&mut msg, amount);
    push_be8(&mut msg, nonce);
    push_be8(&mut msg, expiry);
    push_be8(&mut msg, received_at_us);
    assert(msg@ =~= order_id@ + trader@ + encode_utf8(symbol@) + seq![side_byte(side)] + be8(price)
        + be8(amount) + be8(nonce) + be8(expiry) + be8(received_at_us));
    msg
}

/// The public key of a secret one.
pub uninterp spec fn ed25519_public(secret: Seq<u8>) -> Seq<u8>;

/// The signature of a message by a secret key.
pub uninterp spec fn ed25519_signature(secret: Seq<u8>, message: Seq<u8>) -> Seq<u8>;

/// Whether bytes are a public key.
pub uninterp spec fn ed25519_is_key(key: Seq<u8>) -> bool;

/// Whether a signature of a message holds under a public key.
pub uninterp spec fn ed25519_holds(key: Seq<u8>, message: Seq<u8>, signature: Seq<u8>) -> bool;

/// `SigningKey::verifying_key` of ed25519-dalek, as bytes: the public key of a secret one. It
/// depends on the secret key alone, and `VerifyingKey::from_bytes` takes it.
#[verifier::external_body]
pub(crate) fn public_key(secret: &Id32) -> (r: Id32)
    ensures
        r@ == ed25519_public(secret@),
        ed25519_is_key(r@),
{
    SigningKey::from_bytes(secret).verifying_key().to_bytes()
}

/// `Signer::sign` of ed25519-dalek with a secret key: 64 bytes that depend on the key and the
/// message alone, and that `Verifier::verify` accepts under the secret key's public key.
#[verifier::external_body]
pub(crate) fn sign_message(secret: &Id32, message: &[u8]) -> (r: Vec<u8>)
    ensures
        r@ == ed25519_signature(secret@, message@),
        r@.len() == 64,
        ed25519_holds(ed25519_public(secret@), message@, r@),
{
    SigningKey::from_bytes(secret).sign(message).to_bytes().to_vec()
}

/// `VerifyingKey::from_bytes` of ed25519-dalek: whether it takes the bytes, which is a matter of
/// them alone.
#[verifier::external_body]
pub(crate) fn is_public_key(key: &Id32) -> (r: bool)
    ensures
        r == ed25519_is_key(key@),
{
    VerifyingKey::from_bytes(key).is_ok()
}

/// `Verifier::verify` of ed25519-dalek under a public key: whether it accepts the signature, which
/// is a matter of the key, the message and the signature alone.
#[verifier::external_body]
pub(crate) fn signature_holds(key: &Id32, message: &[u8], signature: &[u8; 64]) -> (r: bool)
    requires
        ed25519_is_key(key@),
    ensures
        r == ed25519_holds(key@, message@, signature@),
{
    let signature = Signature::from_bytes(signature);
    VerifyingKey::from_bytes(key).and_then(|k| k.verify(message, &signature)).is_ok()
}

/// The receipt of an order that came in at the given time.
pub open spec fn receipt_at(
    secret: Seq<u8>,
    order_id: Id32,
    trader: Id32,
    symbol: Seq<char>,
    side: OrderSide,
    price: u64,
    amount: u64,
    nonce: u64,
    expiry: u64,
    received_at_us: u64,
) -> ReceiptSpec {
    let unsigned = ReceiptSpec {
        order_id,
        trader,
        symbol,
        side,
        price,
        amount,
        nonce,
        expiry,
        received_at_us,
        node_pubkey: ed25519_public(secret),
        signature: Seq::empty(),
    };
    ReceiptSpec { signature: ed25519_signature(secret, message_of(unsigned)), ..unsigned }
}

/// A receipt is right: its key is one, and its signature over its own fields holds under it.
pub open spec fn receipt_holds(r: ReceiptSpec) -> bool {
    &&& ed25519_is_key(r.node_pubkey)
    &&& r.signature.len() == 64
    &&& ed25519_holds(r.node_pubkey, message_of(r), r.signature)
}

/// Signs the receipt of an order that came in at the given time.
pub fn sign_receipt_at(
    signing_key: &Id32,
    order_id: Id32,
    trader: Id32,
    symbol: &str,
    side: OrderSide,
    price: u64,
    amount: u64,
    nonce: u64,
    expiry: u64,
    received_at_us: u64,
) -> (r: OrderReceipt)
    ensures
        r@ == receipt_at(
            signing_key@,
            order_id,
            trader,
            symbol@,
            side,
            price,
            amount,
            nonce,
            expiry,
            received_at_us,
        ),
        receipt_holds(r@),
{
    let msg: Vec<u8> = receipt_message(
        &order_id,
        &trader,
        symbol,
        side,
        price,
        amount,
        nonce,
        expiry,
        received_at_us,
    );
    let signature: Vec<u8> = sign_message(signing_key, msg.as_slice());
    let r = OrderReceipt {
        order_id,
        trader,
        symbol: symbol.to_owned(),
        side,
        price,
        amount,
        nonce,
        expiry,
        received_at_us,
        node_pubkey: public_key(signing_key),
        signature,
    };
    assert(msg@ == message_of(r@));
    r
}

/// Signs the receipt of an order that comes in now. The time is never the caller's.
pub fn sign_receipt(
    signing_key: &Id32,
    order_id: Id32,
    trader: Id32,
    symbol: &str,
    side: OrderSide,
    price: u64,
    amount: u64,
    nonce: u64,
    expiry: u64,
) -> (r: OrderReceipt)
    ensures
        r@ == receipt_at(
            signing_key@,
            order_id,
            trader,
            symbol@,
            side,
            price,
            amount,
            nonce,
            expiry,
            r@.received_at_us,
        ),
        receipt_holds(r@),
{
    let received_at_us: u64 = unix_micros();
    sign_receipt_at(
        signing_key,
        order_id,
        trader,
        symbol,
        side,
        price,
        amount,
        nonce,
        expiry,
        received_at_us,
    )
}

/// Checks a receipt by its own fields, with no need to ask anyone.
pub fn verify_receipt(receipt: &OrderReceipt) -> (r: bool)
    ensures
        r == receipt_holds(receipt@),
{
    if !is_public_key(&receipt.node_pubkey) {
        return false;
    }
    if receipt.signature.len() != 64 {
        return false;
    }
    let mut sig: [u8; 64] = [0u8; 64];
    let mut i: usize = 0;
    while i < 64
        invariant
            i <= 64,
            receipt.signature@.len() == 64,
            forall|k: int| 0 <= k < i ==> sig@[k] == receipt.signature@[k],
        decreases 64 - i,
    {
        sig[i] = receipt.signature[i];
        i = i + 1;
    }
    assert(sig@ =~= receipt.signature@);
    let msg: Vec<u8> = receipt_message(
        &receipt.order_id,
        &receipt.trader,
        receipt.symbol.as_str(),
        receipt.side,
        receipt.price,
        receipt.amount,
        receipt.nonce,
        receipt.expiry,
        receipt.received_at_us,
    );
    assert(msg@ == message_of(receipt@));
    signature_holds(&receipt.node_pubkey, msg.as_slice(), &sig)
}

/// The field that starts `k` bytes before the end.
spec fn tail_field(s: Seq<u8>, k: int) -> Seq<u8> {
    s.subrange(s.len() - k, s.len() - k + 8)
}

/// `x` is made of these fields.
#[verifier::opaque]
spec fn made_of(
    x: Seq<u8>,
    p: Seq<u8>,
    q: Seq<u8>,
    e: Seq<u8>,
    d: u8,
    f0: Seq<u8>,
    f1: Seq<u8>,
    f2: Seq<u8>,
    f3: Seq<u8>,
    f4: Seq<u8>,
) -> bool {
    &&& x.len() == 105 + e.len()
    &&& x.subrange(0, 32) == p
    &&& x.subrange(32, 64) == q
    &&& x.subrange(64, x.len() - 41) == e
    &&& x[x.len() - 41] == d
    &&& tail_field(x, 40) == f0
    &&& tail_field(x, 32) == f1
    &&& tail_field(x, 24) == f2
    &&& tail_field(x, 16) == f3
    &&& tail_field(x, 8) == f4
}

proof fn lemma_fields(
    p: Seq<u8>,
    q: Seq<u8>,
    e: Seq<u8>,
    d: u8,
    f0: Seq<u8>,
    f1: Seq<u8>,
    f2: Seq<u8>,
    f3: Seq<u8>,
    f4: Seq<u8>,
)
    requires
        p.len() == 32 && q.len() == 32,
        f0.len() == 8 && f1.len() == 8 && f2.len() == 8 && f3.len() == 8 && f4.len() == 8,
    ensures
        made_of(p + q + e + seq![d] + f0 + f1 + f2 + f3 + f4, p, q, e, d, f0, f1, f2, f3, f4),
{
    reveal(made_of);
    let x = p + q + e + seq![d] + f0 + f1 + f2 + f3 + f4;
    assert(x.subrange(0, 32) =~= p);
    assert(x.subrange(32, 64) =~= q);
    assert(x.subrange(64, x.len() - 41) =~= e);
    assert(tail_field(x, 40) =~= f0);
    assert(tail_field(x, 32) =~= f1);
    assert(tail_field(x, 24) =~= f2);
    assert(tail_field(x, 16) =~= f3);
    assert(tail_field(x, 8) =~= f4);
}

proof fn lemma_message_fields(r: ReceiptSpec)
    ensures
        made_of(
            message_of(r),
            r.order_id@,
            r.trader@,
            encode_utf8(r.symbol),
            side_byte(r.side),
            be8(r.price),
            be8(r.amount),
            be8(r.nonce),
            be8(r.expiry),
            be8(r.received_at_us),
        ),
{
    lemma_be8_len(r.price);
    lemma_be8_len(r.amount);
    lemma_be8_len(r.nonce);
    lemma_be8_len(r.expiry);
    lemma_be8_len(r.received_at_us);
    lemma_fields(
        r.order_id@,
        r.trader@,
        encode_utf8(r.symbol),
        side_byte(r.side),
        be8(r.price),
        be8(r.amount),
        be8(r.nonce),
        be8(r.expiry),
        be8(r.received_at_us),
    );
}

proof fn lemma_same_id(a: Id32, b: Id32)
    requires
        a@ == b@,
    ensures
        a == b,
{
    assert(forall|i: int| 0 <= i < 32 ==> a@[i] == b@[i]);
    assert(a =~= b);
}

/// Field boundaries are unambiguous: receipts that are signed over the same bytes say the same, so
/// that a signature of one is no signature of another.
pub proof fn law_receipt_message_binds_every_field(a: ReceiptSpec, b: ReceiptSpec)
    requires
        message_of(a) == message_of(b),
    ensures
        a.order_id == b.order_id,
        a.trader == b.trader,
        a.symbol == b.symbol,
        a.side == b.side,
        a.price == b.price,
        a.amount == b.amount,
        a.nonce == b.nonce,
        a.expiry == b.expiry,
        a.received_at_us == b.received_at_us,
{
    reveal(made_of);
    lemma_message_fields(a);
    lemma_message_fields(b);
    law_be8_injective(a.price, b.price);
    law_be8_injective(a.amount, b.amount);
    law_be8_injective(a.nonce, b.nonce);
    law_be8_injective(a.expiry, b.expiry);
    law_be8_injective(a.received_at_us, b.received_at_us);
    lemma_same_id(a.order_id, b.order_id);
    lemma_same_id(a.trader, b.trader);
    vstd::utf8::encode_utf8_decode_utf8(a.symbol);
    vstd::utf8::encode_utf8_decode_utf8(b.symbol);
}

/// A signature of one message holds of another one as well.
pub open spec fn is_forgery(
    key: Seq<u8>,
    signed: Seq<u8>,
    other: Seq<u8>,
    signature: Seq<u8>,
) -> bool {
    other != signed && ed25519_holds(key, other, signature)
}

/// Two receipts agree in every field that is signed.
pub open spec fn same_signed_fields(a: ReceiptSpec, b: ReceiptSpec) -> bool {
    &&& a.order_id == b.order_id
    &&& a.trader == b.trader
    &&& a.symbol == b.symbol
    &&& a.side == b.side
    &&& a.price == b.price
    &&& a.amount == b.amount
    &&& a.nonce == b.nonce
    &&& a.expiry == b.expiry
    &&& a.received_at_us == b.received_at_us
}

/// A receipt that was changed after it was signed is refused, unless its signature is a forgery:
/// one that holds of a message that was not signed. One whose signature is not of 64 bytes is
/// refused in any case.
pub proof fn law_changed_receipt_is_refused(signed: ReceiptSpec, changed: ReceiptSpec)
    requires
        changed.signature == signed.signature,
        changed.node_pubkey == signed.node_pubkey,
        !same_signed_fields(signed, changed),
    ensures
        !receipt_holds(changed) || is_forgery(
            signed.node_pubkey,
            message_of(signed),
            message_of(changed),
            signed.signature,
        ),
        changed.signature.len() != 64 ==> !receipt_holds(changed),
{
    if message_of(signed) == message_of(changed) {
        law_receipt_message_binds_every_field(signed, changed);
    }
}

/// A signature holds of its message under a key that has not made it.
pub open spec fn is_adopted(
    signer: Seq<u8>,
    key: Seq<u8>,
    message: Seq<u8>,
    signature: Seq<u8>,
) -> bool {
    key != signer && ed25519_is_key(key) && ed25519_holds(key, message, signature)
}

/// A receipt whose key was replaced after it was signed is refused, unless its signature holds of
/// the very same message under the other key as well: the key is not among the bytes that are
/// signed, so that nothing else is left to check. One whose new key is none is refused in any case.
pub proof fn law_replaced_key_is_refused(signed: ReceiptSpec, changed: ReceiptSpec)
    requires
        changed.signature == signed.signature,
        changed.node_pubkey != signed.node_pubkey,
        same_signed_fields(signed, changed),
    ensures
        message_of(changed) == message_of(signed),
        !receipt_holds(changed) || is_adopted(
            signed.node_pubkey,
            changed.node_pubkey,
            message_of(signed),
            signed.signature,
        ),
        !ed25519_is_key(changed.node_pubkey) ==> !receipt_holds(changed),
{
}

/// A receipt says what it is the receipt of, in every field, and is signed with the key that it names
/// over all of that.
pub proof fn law_receipts_say_what_was_received(
    secret: Seq<u8>,
    order_id: Id32,
    trader: Id32,
    symbol: Seq<char>,
    side: OrderSide,
    price: u64,
    amount: u64,
    nonce: u64,
    expiry: u64,
    received_at_us: u64,
)
    ensures
        ({
            let r = receipt_at(
                secret,
                order_id,
                trader,
                symbol,
                side,
                price,
                amount,
                nonce,
                expiry,
                received_at_us,
            );
            &&& r.order_id == order_id && r.trader == trader && r.symbol == symbol && r.side == side
            &&& r.price == price && r.amount == amount && r.nonce == nonce && r.expiry == expiry
            &&& r.received_at_us == received_at_us
            &&& r.node_pubkey == ed25519_public(secret)
            &&& r.signature == ed25519_signature(secret, message_of(r))
        }),
{
}

} // verus!
