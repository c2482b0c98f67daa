//! Lengths of frames.

use emcyphal::frame::DataLength;


const VALID_CAN_LENGTH: [usize; 16] = [0, 1, 2, 3, 4, 5, 6, 7, 8, 12, 16, 20, 24, 32, 48, 64];

fn ceil_length_ref(value: usize) -> Option<usize> {
    match VALID_CAN_LENGTH.binary_search(&value) {
        Ok(pos) => Some(VALID_CAN_LENGTH[pos]),
        Err(pos) => {
            if pos < VALID_CAN_LENGTH.len() {
                Some(VALID_CAN_LENGTH[pos])
            } else {
                None
            }
        }
    }
}

fn floor_length_ref(value: usize) -> usize {
    match VALID_CAN_LENGTH.binary_search(&value) {
        Ok(pos) => VALID_CAN_LENGTH[pos],
        Err(pos) => VALID_CAN_LENGTH[pos - 1],
    }
}

#[test]
fn test_frame_length() {
    for len in 0usize..100 {
        assert_eq!(
            usize::from(DataLength::new_floor(len)),
            floor_length_ref(len)
        );
        assert_eq!(
            DataLength::new_ceil(len).map(|len| usize::from(len)),
            ceil_length_ref(len)
        );
    }
}
