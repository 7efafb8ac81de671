use vstd::prelude::*;
use vstd::string::StringSliceAdditionalSpecFns;
use vstd::utf8::*;

verus! {

/// Relies on `std::str::from_utf8` and, on failure, on `Utf8Error::valid_up_to` and
/// `Utf8Error::error_len`, whose two results are handed back as they are.
/// `from_utf8` succeeds exactly on valid UTF-8 and then views the same bytes;
/// `valid_up_to` is the length of the longest valid prefix; `error_len` is `None`
/// when the input ends inside a character (one to three bytes before the end),
/// and `Some` when an invalid byte sequence lies within the input, which no
/// further bytes can repair.
#[verifier::external_body]
pub(crate) fn str_from_utf8(b: &[u8]) -> (r: Result<&str, (usize, Option<usize>)>)
    ensures
        r is Ok <==> valid_utf8(b@),
        r matches Ok(s) ==> s.spec_bytes() == b@,
        r matches Err((v, e)) ==> {
            &&& v <= b@.len()
            &&& valid_utf8(b@.take(v as int))
            &&& e is None ==> b@.len() - 3 <= v < b@.len()
            &&& e is Some ==> forall|x: Seq<u8>| !valid_utf8(#[trigger] (b@ + x))
        },
{
    std::str::from_utf8(b).map_err(|e| (e.valid_up_to(), e.error_len()))
}

/// Valid UTF-8 followed by more bytes is valid exactly when those bytes are, and then
/// it decodes to the two decodings one after the other.
pub proof fn lemma_utf8_append(a: Seq<u8>, b: Seq<u8>)
    requires
        valid_utf8(a),
    ensures
        valid_utf8(a + b) <==> valid_utf8(b),
        valid_utf8(b) ==> decode_utf8(a + b) == decode_utf8(a) + decode_utf8(b),
    decreases a.len(),
{
    if a.len() == 0 {
        assert(a + b =~= b);
        assert(decode_utf8(a) =~= Seq::<char>::empty());
        assert(decode_utf8(a) + decode_utf8(b) =~= decode_utf8(b));
    } else {
        let ab = a + b;
        let k = length_of_first_scalar(a);
        assert(ab[0] == a[0]);
        assert(a.len() >= 2 ==> ab[1] == a[1]);
        assert(a.len() >= 3 ==> ab[2] == a[2]);
        assert(a.len() >= 4 ==> ab[3] == a[3]);
        assert(valid_first_scalar(ab));
        assert(length_of_first_scalar(ab) == k);
        assert(decode_first_scalar(ab) == decode_first_scalar(a));
        assert(pop_first_scalar(ab) =~= pop_first_scalar(a) + b);
        lemma_utf8_append(pop_first_scalar(a), b);
        if valid_utf8(b) {
            assert(decode_utf8(ab) =~= decode_utf8(a) + decode_utf8(b));
        }
    }
}

/// Converts the longest valid UTF-8 prefix of `bytes` to a `&str`.
///
/// Returns the text and, when the bytes end inside a character, how many bytes at the
/// end were left out. Fails when an invalid byte sequence lies within `bytes`.
pub fn bytes_to_str(bytes: &[u8]) -> (r: Result<(&str, Option<usize>), ()>)
    ensures
        valid_utf8(bytes@) ==> r matches Ok((_, None)),
        r matches Ok((s, left)) ==> {
            let v = match left {
                Some(k) => bytes@.len() - k,
                None => bytes@.len() as int,
            };
            &&& 0 <= v <= bytes@.len()
            &&& valid_utf8(bytes@.take(v))
            &&& s.spec_bytes() == bytes@.take(v)
            &&& s@ == decode_utf8(bytes@.take(v))
            &&& (left is None <==> valid_utf8(bytes@))
            &&& left matches Some(k) ==> 1 <= k <= 3 && !valid_utf8(bytes@.skip(v))
        },
        r is Err ==> forall|x: Seq<u8>| !valid_utf8(#[trigger] (bytes@ + x)),
{
    match str_from_utf8(bytes) {
        Ok(s) => {
            proof {
                assert(bytes@.take(bytes@.len() as int) =~= bytes@);
                decode_utf8_encode_utf8(bytes@);
                encode_utf8_decode_utf8(s@);
            }
            Ok((s, None))
        },
        Err((v, e)) => {
            if e.is_some() {
                return Err(());
            }
            let prefix = vstd::slice::slice_subrange(bytes, 0, v);
            match str_from_utf8(prefix) {
                Ok(s) => {
                    proof {
                        assert(prefix@ =~= bytes@.take(v as int));
                        encode_utf8_decode_utf8(s@);
                        decode_utf8_encode_utf8(bytes@.take(v as int));
                        assert(bytes@ =~= bytes@.take(v as int) + bytes@.skip(v as int));
                        lemma_utf8_append(bytes@.take(v as int), bytes@.skip(v as int));
                    }
                    Ok((s, Some(bytes.len() - v)))
                },
                Err(_) => {
                    proof {
                        assert(prefix@ =~= bytes@.take(v as int));
                    }
                    Err(())
                },
            }
        },
    }
}

} // verus!
