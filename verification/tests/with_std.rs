use flexible_io::{AllowStd, Read, Write};

fn is_read<R: Read>() {}
fn is_write<W: Write>() {}

const XXX: () = {
    #[allow(dead_code)]
    fn slice_read() {
        let _ = is_read::<AllowStd<&'static [u8]>>;
    }
    #[allow(dead_code)]
    fn vec_write() {
        let _ = is_write::<AllowStd<Vec<u8>>>;
        let _ = is_write::<AllowStd<&'static mut [u8]>>;
    }
};

#[test]
fn with_std_evaluate_consts() {
    let _: () = XXX;
}
