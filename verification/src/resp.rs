//! The fixed HTTP replies written on a stream when a request cannot be
//! carried: each is a complete response, byte for byte.

use vstd::prelude::*;

verus! {

/// Bytes of the node's reply on a stream whose identifier is unknown or whose prefix could not be read.
pub open spec fn spec_resp_bad_request() -> Seq<u8> {
    seq![72u8, 84u8, 84u8, 80u8, 47u8, 49u8, 46u8, 49u8, 32u8, 52u8, 48u8, 48u8, 32u8, 66u8, 97u8, 100u8, 32u8, 82u8, 101u8, 113u8, 117u8, 101u8, 115u8, 116u8, 13u8, 10u8, 67u8, 111u8, 110u8, 116u8, 101u8, 110u8, 116u8, 45u8, 84u8, 121u8, 112u8, 101u8, 58u8, 32u8, 116u8, 101u8, 120u8, 116u8, 47u8, 112u8, 108u8, 97u8, 105u8, 110u8, 59u8, 32u8, 99u8, 104u8, 97u8, 114u8, 115u8, 101u8, 116u8, 61u8, 117u8, 116u8, 102u8, 45u8, 56u8, 13u8, 10u8, 67u8, 111u8, 110u8, 116u8, 101u8, 110u8, 116u8, 45u8, 76u8, 101u8, 110u8, 103u8, 116u8, 104u8, 58u8, 32u8, 50u8, 51u8, 13u8, 10u8, 13u8, 10u8, 69u8, 114u8, 114u8, 111u8, 114u8, 58u8, 32u8, 66u8, 97u8, 100u8, 32u8, 82u8, 101u8, 113u8, 117u8, 101u8, 115u8, 116u8]
}

/// As [`spec_resp_bad_request`]: the node's reply on a stream whose identifier is unknown or whose prefix could not be read.
pub fn resp_bad_request() -> (r: Vec<u8>)
    ensures
        r@ == spec_resp_bad_request(),
{
    let r: Vec<u8> = vec![72u8, 84u8, 84u8, 80u8, 47u8, 49u8, 46u8, 49u8, 32u8, 52u8, 48u8, 48u8, 32u8, 66u8, 97u8, 100u8, 32u8, 82u8, 101u8, 113u8, 117u8, 101u8, 115u8, 116u8, 13u8, 10u8, 67u8, 111u8, 110u8, 116u8, 101u8, 110u8, 116u8, 45u8, 84u8, 121u8, 112u8, 101u8, 58u8, 32u8, 116u8, 101u8, 120u8, 116u8, 47u8, 112u8, 108u8, 97u8, 105u8, 110u8, 59u8, 32u8, 99u8, 104u8, 97u8, 114u8, 115u8, 101u8, 116u8, 61u8, 117u8, 116u8, 102u8, 45u8, 56u8, 13u8, 10u8, 67u8, 111u8, 110u8, 116u8, 101u8, 110u8, 116u8, 45u8, 76u8, 101u8, 110u8, 103u8, 116u8, 104u8, 58u8, 32u8, 50u8, 51u8, 13u8, 10u8, 13u8, 10u8, 69u8, 114u8, 114u8, 111u8, 114u8, 58u8, 32u8, 66u8, 97u8, 100u8, 32u8, 82u8, 101u8, 113u8, 117u8, 101u8, 115u8, 116u8];
    proof {
        assert(r@ =~= spec_resp_bad_request());
    }
    r
}

/// Bytes of the node's acknowledgement once a tunnel's upstream connection stands.
pub open spec fn spec_resp_connect_established() -> Seq<u8> {
    seq![72u8, 84u8, 84u8, 80u8, 47u8, 49u8, 46u8, 49u8, 32u8, 50u8, 48u8, 48u8, 32u8, 67u8, 111u8, 110u8, 110u8, 101u8, 99u8, 116u8, 105u8, 111u8, 110u8, 32u8, 69u8, 115u8, 116u8, 97u8, 98u8, 108u8, 105u8, 115u8, 104u8, 101u8, 100u8, 13u8, 10u8, 13u8, 10u8]
}

/// As [`spec_resp_connect_established`]: the node's acknowledgement once a tunnel's upstream connection stands.
pub fn resp_connect_established() -> (r: Vec<u8>)
    ensures
        r@ == spec_resp_connect_established(),
{
    let r: Vec<u8> = vec![72u8, 84u8, 84u8, 80u8, 47u8, 49u8, 46u8, 49u8, 32u8, 50u8, 48u8, 48u8, 32u8, 67u8, 111u8, 110u8, 110u8, 101u8, 99u8, 116u8, 105u8, 111u8, 110u8, 32u8, 69u8, 115u8, 116u8, 97u8, 98u8, 108u8, 105u8, 115u8, 104u8, 101u8, 100u8, 13u8, 10u8, 13u8, 10u8];
    proof {
        assert(r@ =~= spec_resp_connect_established());
    }
    r
}

/// Bytes of the gateway's refusal of tunneling over the plain listener.
pub open spec fn spec_resp_connect_plain_reject() -> Seq<u8> {
    seq![72u8, 84u8, 84u8, 80u8, 47u8, 49u8, 46u8, 49u8, 32u8, 52u8, 48u8, 48u8, 32u8, 66u8, 97u8, 100u8, 32u8, 82u8, 101u8, 113u8, 117u8, 101u8, 115u8, 116u8, 13u8, 10u8, 67u8, 111u8, 110u8, 110u8, 101u8, 99u8, 116u8, 105u8, 111u8, 110u8, 58u8, 32u8, 99u8, 108u8, 111u8, 115u8, 101u8, 13u8, 10u8, 13u8, 10u8]
}

/// As [`spec_resp_connect_plain_reject`]: the gateway's refusal of tunneling over the plain listener.
pub fn resp_connect_plain_reject() -> (r: Vec<u8>)
    ensures
        r@ == spec_resp_connect_plain_reject(),
{
    let r: Vec<u8> = vec![72u8, 84u8, 84u8, 80u8, 47u8, 49u8, 46u8, 49u8, 32u8, 52u8, 48u8, 48u8, 32u8, 66u8, 97u8, 100u8, 32u8, 82u8, 101u8, 113u8, 117u8, 101u8, 115u8, 116u8, 13u8, 10u8, 67u8, 111u8, 110u8, 110u8, 101u8, 99u8, 116u8, 105u8, 111u8, 110u8, 58u8, 32u8, 99u8, 108u8, 111u8, 115u8, 101u8, 13u8, 10u8, 13u8, 10u8];
    proof {
        assert(r@ =~= spec_resp_connect_plain_reject());
    }
    r
}

/// Bytes of the gateway's reply when no node owns the identifier; the body is a fixed fifteen-byte UTF-8 notice.
pub open spec fn spec_resp_device_offline() -> Seq<u8> {
    seq![72u8, 84u8, 84u8, 80u8, 47u8, 49u8, 46u8, 49u8, 32u8, 50u8, 48u8, 48u8, 32u8, 79u8, 75u8, 13u8, 10u8, 67u8, 111u8, 110u8, 116u8, 101u8, 110u8, 116u8, 45u8, 84u8, 121u8, 112u8, 101u8, 58u8, 32u8, 116u8, 101u8, 120u8, 116u8, 47u8, 112u8, 108u8, 97u8, 105u8, 110u8, 59u8, 32u8, 99u8, 104u8, 97u8, 114u8, 115u8, 101u8, 116u8, 61u8, 117u8, 116u8, 102u8, 45u8, 56u8, 13u8, 10u8, 67u8, 111u8, 110u8, 116u8, 101u8, 110u8, 116u8, 45u8, 76u8, 101u8, 110u8, 103u8, 116u8, 104u8, 58u8, 32u8, 49u8, 53u8, 13u8, 10u8, 13u8, 10u8, 232u8, 174u8, 190u8, 229u8, 164u8, 135u8, 230u8, 156u8, 170u8, 232u8, 191u8, 158u8, 230u8, 142u8, 165u8]
}

/// As [`spec_resp_device_offline`]: the gateway's reply when no node owns the identifier; the body is a fixed fifteen-byte UTF-8 notice.
pub fn resp_device_offline() -> (r: Vec<u8>)
    ensures
        r@ == spec_resp_device_offline(),
{
    let r: Vec<u8> = vec![72u8, 84u8, 84u8, 80u8, 47u8, 49u8, 46u8, 49u8, 32u8, 50u8, 48u8, 48u8, 32u8, 79u8, 75u8, 13u8, 10u8, 67u8, 111u8, 110u8, 116u8, 101u8, 110u8, 116u8, 45u8, 84u8, 121u8, 112u8, 101u8, 58u8, 32u8, 116u8, 101u8, 120u8, 116u8, 47u8, 112u8, 108u8, 97u8, 105u8, 110u8, 59u8, 32u8, 99u8, 104u8, 97u8, 114u8, 115u8, 101u8, 116u8, 61u8, 117u8, 116u8, 102u8, 45u8, 56u8, 13u8, 10u8, 67u8, 111u8, 110u8, 116u8, 101u8, 110u8, 116u8, 45u8, 76u8, 101u8, 110u8, 103u8, 116u8, 104u8, 58u8, 32u8, 49u8, 53u8, 13u8, 10u8, 13u8, 10u8, 232u8, 174u8, 190u8, 229u8, 164u8, 135u8, 230u8, 156u8, 170u8, 232u8, 191u8, 158u8, 230u8, 142u8, 165u8];
    proof {
        assert(r@ =~= spec_resp_device_offline());
    }
    r
}

/// Bytes of the node's reply when the upstream would be the gateway itself.
pub open spec fn spec_resp_loop_detected() -> Seq<u8> {
    seq![72u8, 84u8, 84u8, 80u8, 47u8, 49u8, 46u8, 49u8, 32u8, 53u8, 48u8, 56u8, 32u8, 76u8, 111u8, 111u8, 112u8, 32u8, 68u8, 101u8, 116u8, 101u8, 99u8, 116u8, 101u8, 100u8, 13u8, 10u8, 67u8, 111u8, 110u8, 116u8, 101u8, 110u8, 116u8, 45u8, 84u8, 121u8, 112u8, 101u8, 58u8, 32u8, 116u8, 101u8, 120u8, 116u8, 47u8, 112u8, 108u8, 97u8, 105u8, 110u8, 59u8, 32u8, 99u8, 104u8, 97u8, 114u8, 115u8, 101u8, 116u8, 61u8, 117u8, 116u8, 102u8, 45u8, 56u8, 13u8, 10u8, 67u8, 111u8, 110u8, 116u8, 101u8, 110u8, 116u8, 45u8, 76u8, 101u8, 110u8, 103u8, 116u8, 104u8, 58u8, 32u8, 50u8, 56u8, 13u8, 10u8, 13u8, 10u8, 69u8, 114u8, 114u8, 111u8, 114u8, 58u8, 32u8, 82u8, 101u8, 113u8, 117u8, 101u8, 115u8, 116u8, 32u8, 108u8, 111u8, 111u8, 112u8, 32u8, 100u8, 101u8, 116u8, 101u8, 99u8, 116u8, 101u8, 100u8]
}

/// As [`spec_resp_loop_detected`]: the node's reply when the upstream would be the gateway itself.
pub fn resp_loop_detected() -> (r: Vec<u8>)
    ensures
        r@ == spec_resp_loop_detected(),
{
    let r: Vec<u8> = vec![72u8, 84u8, 84u8, 80u8, 47u8, 49u8, 46u8, 49u8, 32u8, 53u8, 48u8, 56u8, 32u8, 76u8, 111u8, 111u8, 112u8, 32u8, 68u8, 101u8, 116u8, 101u8, 99u8, 116u8, 101u8, 100u8, 13u8, 10u8, 67u8, 111u8, 110u8, 116u8, 101u8, 110u8, 116u8, 45u8, 84u8, 121u8, 112u8, 101u8, 58u8, 32u8, 116u8, 101u8, 120u8, 116u8, 47u8, 112u8, 108u8, 97u8, 105u8, 110u8, 59u8, 32u8, 99u8, 104u8, 97u8, 114u8, 115u8, 101u8, 116u8, 61u8, 117u8, 116u8, 102u8, 45u8, 56u8, 13u8, 10u8, 67u8, 111u8, 110u8, 116u8, 101u8, 110u8, 116u8, 45u8, 76u8, 101u8, 110u8, 103u8, 116u8, 104u8, 58u8, 32u8, 50u8, 56u8, 13u8, 10u8, 13u8, 10u8, 69u8, 114u8, 114u8, 111u8, 114u8, 58u8, 32u8, 82u8, 101u8, 113u8, 117u8, 101u8, 115u8, 116u8, 32u8, 108u8, 111u8, 111u8, 112u8, 32u8, 100u8, 101u8, 116u8, 101u8, 99u8, 116u8, 101u8, 100u8];
    proof {
        assert(r@ =~= spec_resp_loop_detected());
    }
    r
}

} // verus!
