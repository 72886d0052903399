use vstd::prelude::*;

verus! {

/// Number of samples that linear resampling of `len` samples from `input_rate` to
/// `output_rate` produces: the input unchanged when it is empty or the rates agree, else
/// `len * output_rate / input_rate`, rounded down.
pub open spec fn resampled_length(len: nat, input_rate: nat, output_rate: nat) -> nat {
    if len == 0 || input_rate == output_rate {
        len
    } else {
        len * output_rate / input_rate
    }
}

/// Length of the resampled signal, computed in 64 bits as the resampler does.
pub fn resampled_len(len: usize, input_rate: u32, output_rate: u32) -> (out_len: usize)
    requires
        len == 0 || input_rate == output_rate || (input_rate > 0 && len * output_rate
            <= u64::MAX),
    ensures
        out_len == resampled_length(len as nat, input_rate as nat, output_rate as nat) as usize,
{
    if len == 0 || input_rate == output_rate {
        return len;
    }
    let product: u64 = (len as u64) * (output_rate as u64);
    (product / (input_rate as u64)) as usize
}

} // verus!
