//! The rotation plan: the fixed, ordered list of renames that shifts every
//! generation up one slot, highest generation first, and the configuration
//! it is computed from.

use vstd::prelude::*;
use crate::names::gen_filename;
use crate::names::gen_name;

verus! {

/// One rename of a rotation event: the file named `from_filename` is moved
/// onto `to_filename`, overwriting whatever was there.
#[derive(Debug)]
pub struct RotationInfo {
    pub from_filename: String,
    pub to_filename: String,
}

impl RotationInfo {
    pub fn from_filename(&self) -> (r: &String)
        ensures
            r@ == self.from_filename@,
    {
        &self.from_filename
    }

    pub fn to_filename(&self) -> (r: &String)
        ensures
            r@ == self.to_filename@,
    {
        &self.to_filename
    }
}

/// The shape of a rotation plan for base name `base` and `n` retained
/// generations: empty when `n <= 1`, otherwise `n - 1` steps whose sources
/// run from generation `n - 2` down to `0`, each renamed one slot up.
pub open spec fn plan_matches(steps: Seq<RotationInfo>, base: Seq<char>, n: nat) -> bool {
    &&& steps.len() == if n <= 1 {
        0int
    } else {
        n - 1
    }
    &&& forall|j: int|
        0 <= j < steps.len() ==> {
            &&& (#[trigger] steps[j]).from_filename@ == gen_name(base, (n - 2 - j) as nat)
            &&& steps[j].to_filename@ == gen_name(base, (n - 1 - j) as nat)
        }
}

/// The configuration of one rotating writer, fixed for the life of the
/// process, together with its precomputed rotation plan.
pub struct SimpleRotate {
    pub lock_file_name: String,
    pub max_file_size_bytes: usize,
    pub output_file_name: String,
    pub max_output_files: usize,
    pub rotation_info_list: Vec<RotationInfo>,
}

impl SimpleRotate {
    /// The stored plan is exactly the one computed from the stored base name
    /// and generation count.
    pub open spec fn wf(&self) -> bool {
        plan_matches(
            self.rotation_info_list@,
            self.output_file_name@,
            self.max_output_files as nat,
        )
    }

    pub fn new(
        lock_file_name: &str,
        max_file_size_bytes: usize,
        output_file_name: &str,
        max_output_files: usize,
    ) -> (r: Self)
        ensures
            r.lock_file_name@ == lock_file_name@,
            r.max_file_size_bytes == max_file_size_bytes,
            r.output_file_name@ == output_file_name@,
            r.max_output_files == max_output_files,
            r.wf(),
    {
        let rotation_info_list = SimpleRotate::rotation_info_list(
            output_file_name,
            max_output_files,
        );
        SimpleRotate {
            lock_file_name: lock_file_name.to_owned(),
            max_file_size_bytes,
            output_file_name: output_file_name.to_owned(),
            max_output_files,
            rotation_info_list,
        }
    }

    /// Computes the rotation plan: a pure function of the base name and the
    /// number of retained generations.
    pub fn rotation_info_list(output_file_name: &str, max_output_files: usize) -> (r: Vec<
        RotationInfo,
    >)
        ensures
            plan_matches(r@, output_file_name@, max_output_files as nat),
    {
        let mut list: Vec<RotationInfo> = Vec::new();
        if max_output_files <= 1 {
            return list;
        }
        let mut i: usize = max_output_files - 1;
        while i > 0
            invariant
                max_output_files >= 2,
                i <= max_output_files - 1,
                list@.len() == max_output_files - 1 - i,
                forall|j: int|
                    0 <= j < list@.len() ==> {
                        &&& (#[trigger] list@[j]).from_filename@ == gen_name(
                            output_file_name@,
                            (max_output_files - 2 - j) as nat,
                        )
                        &&& list@[j].to_filename@ == gen_name(
                            output_file_name@,
                            (max_output_files - 1 - j) as nat,
                        )
                    },
            decreases i,
        {
            let from_filename = gen_filename(output_file_name, i - 1);
            let to_filename = gen_filename(output_file_name, i);
            list.push(RotationInfo { from_filename, to_filename });
            i = i - 1;
        }
        list
    }
}

} // verus!
