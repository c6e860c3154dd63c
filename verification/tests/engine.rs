//! End-to-end checks of the array engine through its public operations.

use uiua_core::array::Array;
use uiua_core::cow::CowSlice;
use uiua_core::elem::Fill;
use uiua_core::error::{ArrayError, TypeTag};
use uiua_core::lex::{CodeSpan, Loc, Primitive, Simple, Span, Token};
use uiua_core::value::Value;

fn num_list(xs: &[i64]) -> Value {
    Value::Num(Array::list(xs.to_vec()))
}

fn num_array(shape: &[usize], xs: &[i64]) -> Value {
    Value::Num(Array { shape: shape.to_vec(), data: xs.to_vec() })
}

fn num_scalar(x: i64) -> Value {
    Value::Num(Array::scalar(x))
}

fn unwrap_num(v: Value) -> (Vec<usize>, Vec<i64>) {
    match v {
        Value::Num(a) => (a.shape, a.data),
        _ => panic!("expected a numeric array"),
    }
}

fn unwrap_byte(v: Value) -> (Vec<usize>, Vec<u8>) {
    match v {
        Value::Byte(a) => (a.shape, a.data),
        _ => panic!("expected a byte array"),
    }
}

#[test]
fn windows_of_a_list() {
    let sizes = num_list(&[2]);
    let from = num_list(&[1, 2, 3, 4]);
    let (shape, data) = unwrap_num(sizes.windows(&from).unwrap());
    assert_eq!(shape, vec![3, 2]);
    assert_eq!(data, vec![1, 2, 2, 3, 3, 4]);
}

#[test]
fn pick_stacks_single_picks() {
    let index = num_array(&[2, 1], &[0, 1]);
    let from = num_list(&[10, 20, 30]);
    let (shape, data) = unwrap_num(index.pick(&from, &Fill::none()).unwrap());
    assert_eq!(shape, vec![2]);
    assert_eq!(data, vec![10, 20]);
}

#[test]
fn rotate_cycles_both_ways() {
    let fill = Fill::none();
    let by = num_list(&[1]);
    let (_, data) = unwrap_num(by.rotate(num_list(&[1, 2, 3, 4, 5]), &fill).unwrap());
    assert_eq!(data, vec![2, 3, 4, 5, 1]);
    let by = num_list(&[-1]);
    let (_, data) = unwrap_num(by.rotate(num_list(&[1, 2, 3, 4, 5]), &fill).unwrap());
    assert_eq!(data, vec![5, 1, 2, 3, 4]);
}

#[test]
fn rotate_then_unrotate_is_identity() {
    let fill = Fill::none();
    let v = num_list(&[7, 8, 9, 10]);
    let once = num_list(&[3]).rotate(v, &fill).unwrap();
    let back = num_list(&[-3]).rotate(once, &fill).unwrap();
    let (shape, data) = unwrap_num(back);
    assert_eq!(shape, vec![4]);
    assert_eq!(data, vec![7, 8, 9, 10]);
}

#[test]
fn rotate_with_fill_shifts() {
    let fill = Fill::with_num(0);
    let by = num_list(&[2]);
    let (_, data) = unwrap_num(by.rotate(num_list(&[1, 2, 3, 4, 5]), &fill).unwrap());
    assert_eq!(data, vec![3, 4, 5, 0, 0]);
}

#[test]
fn find_marks_match_corners() {
    let needle = num_list(&[2, 3]);
    let hay = num_list(&[1, 2, 3, 4, 2, 3]);
    let (shape, data) = unwrap_byte(needle.find(&hay, &Fill::none()).unwrap());
    assert_eq!(shape, vec![6]);
    assert_eq!(data, vec![0, 1, 0, 0, 1, 0]);
}

#[test]
fn reshape_to_own_shape_is_identity() {
    let mut v = num_array(&[2, 3], &[1, 2, 3, 4, 5, 6]);
    let shape = num_list(&[2, 3]);
    v.reshape(&shape, &Fill::none()).unwrap();
    let (s, d) = unwrap_num(v);
    assert_eq!(s, vec![2, 3]);
    assert_eq!(d, vec![1, 2, 3, 4, 5, 6]);
}

#[test]
fn reshape_repeats_data_cyclically() {
    let mut v = num_list(&[1, 2, 3]);
    v.reshape(&num_list(&[2, 4]), &Fill::none()).unwrap();
    let (s, d) = unwrap_num(v);
    assert_eq!(s, vec![2, 4]);
    assert_eq!(d, vec![1, 2, 3, 1, 2, 3, 1, 2]);
}

#[test]
fn reshape_pads_with_fill() {
    let mut v = num_list(&[1, 2, 3]);
    v.reshape(&num_list(&[5]), &Fill::with_num(9)).unwrap();
    let (_, d) = unwrap_num(v);
    assert_eq!(d, vec![1, 2, 3, 9, 9]);
}

#[test]
fn reshape_derives_placeholder_dimension() {
    // Rounded down without a fill value, up with one.
    let mut v = num_list(&[1, 2, 3, 4, 5]);
    v.reshape(&num_list(&[-1, 2]), &Fill::none()).unwrap();
    let (s, d) = unwrap_num(v);
    assert_eq!(s, vec![2, 2]);
    assert_eq!(d, vec![1, 2, 3, 4]);

    let mut v = num_list(&[1, 2, 3, 4, 5]);
    v.reshape(&num_list(&[-1, 2]), &Fill::with_num(0)).unwrap();
    let (s, d) = unwrap_num(v);
    assert_eq!(s, vec![3, 2]);
    assert_eq!(d, vec![1, 2, 3, 4, 5, 0]);
}

#[test]
fn reshape_scalar_count_replicates() {
    let mut v = num_list(&[1, 2]);
    v.reshape(&num_scalar(3), &Fill::none()).unwrap();
    let (s, d) = unwrap_num(v);
    assert_eq!(s, vec![3, 2]);
    assert_eq!(d, vec![1, 2, 1, 2, 1, 2]);
}

#[test]
fn reshape_rejects_two_placeholders() {
    let mut v = num_list(&[1, 2, 3, 4]);
    let err = v.reshape(&num_list(&[-1, -1]), &Fill::none()).unwrap_err();
    assert_eq!(err, ArrayError::MultipleNegativeDims);
}

#[test]
fn reshape_of_empty_needs_fill() {
    let mut v = num_list(&[]);
    let err = v.reshape(&num_list(&[3]), &Fill::none()).unwrap_err();
    assert_eq!(err, ArrayError::EmptyReshapeNoFill);
}

#[test]
fn rerank_merges_leading_axes() {
    let mut v = num_array(&[2, 2, 2], &[1, 2, 3, 4, 5, 6, 7, 8]);
    v.rerank(&num_scalar(1)).unwrap();
    let (s, d) = unwrap_num(v);
    assert_eq!(s, vec![4, 2]);
    assert_eq!(d, vec![1, 2, 3, 4, 5, 6, 7, 8]);

    let mut v = num_array(&[2, 2, 2], &[1, 2, 3, 4, 5, 6, 7, 8]);
    v.rerank(&num_scalar(-2)).unwrap();
    let (s, _) = unwrap_num(v);
    assert_eq!(s, vec![4, 2]);

    let mut v = num_array(&[2, 2, 2], &[1, 2, 3, 4, 5, 6, 7, 8]);
    v.rerank(&num_scalar(3)).unwrap();
    let (s, _) = unwrap_num(v);
    assert_eq!(s, vec![1, 2, 2, 2]);
}

#[test]
fn keep_with_counts() {
    let counts = num_list(&[0, 2, 1]);
    let v = num_list(&[4, 5, 6]);
    let (s, d) = unwrap_num(counts.keep(v, &Fill::none()).unwrap());
    assert_eq!(s, vec![3]);
    assert_eq!(d, vec![5, 5, 6]);
}

#[test]
fn keep_all_ones_is_identity() {
    let counts = num_list(&[1, 1, 1]);
    let v = num_list(&[4, 5, 6]);
    let (s, d) = unwrap_num(counts.keep(v, &Fill::none()).unwrap());
    assert_eq!(s, vec![3]);
    assert_eq!(d, vec![4, 5, 6]);
}

#[test]
fn keep_all_zeros_empties() {
    let counts = num_list(&[0, 0, 0]);
    let v = num_list(&[4, 5, 6]);
    let (s, d) = unwrap_num(counts.keep(v, &Fill::none()).unwrap());
    assert_eq!(s, vec![0]);
    assert_eq!(d, Vec::<i64>::new());
}

#[test]
fn keep_scalar_count_repeats_block() {
    let counts = num_scalar(2);
    let v = num_list(&[1, 2]);
    let (s, d) = unwrap_num(counts.keep(v, &Fill::none()).unwrap());
    assert_eq!(s, vec![4]);
    assert_eq!(d, vec![1, 2, 1, 2]);
}

#[test]
fn keep_counts_shorter_needs_fill() {
    let counts = num_list(&[1]);
    let v = num_list(&[4, 5, 6]);
    let err = counts.keep(v, &Fill::none()).unwrap_err();
    assert_eq!(
        err,
        ArrayError::KeepShapeMismatch { counts_len: 1, row_count: 3, fill_available: false },
    );
    let counts = num_list(&[1]);
    let v = num_list(&[4, 5, 6]);
    let (_, d) = unwrap_num(counts.keep(v, &Fill::with_num(1)).unwrap());
    assert_eq!(d, vec![4, 5, 6]);
}

#[test]
fn unkeep_restores_after_identity_edit() {
    let counts = vec![1usize, 0, 1];
    let a = Array { shape: vec![3], data: vec![4i64, 5, 6] };
    let again = Array { shape: vec![3], data: vec![4i64, 5, 6] };
    let kept = again.list_keep(&counts, None).unwrap();
    assert_eq!(kept.data, vec![4, 6]);
    let restored = kept.unkeep(&counts, a).unwrap();
    assert_eq!(restored.shape, vec![3]);
    assert_eq!(restored.data, vec![4, 5, 6]);
}

#[test]
fn take_and_drop_partition_rows() {
    let fill = Fill::none();
    let n = num_list(&[2]);
    let v = num_list(&[1, 2, 3, 4, 5]);
    let (_, taken) = unwrap_num(n.take(v, &fill).unwrap());
    let n = num_list(&[2]);
    let v = num_list(&[1, 2, 3, 4, 5]);
    let (_, dropped) = unwrap_num(n.drop(v).unwrap());
    assert_eq!(taken, vec![1, 2]);
    assert_eq!(dropped, vec![3, 4, 5]);
    let mut whole = taken.clone();
    whole.extend(dropped.iter().copied());
    assert_eq!(whole, vec![1, 2, 3, 4, 5]);
}

#[test]
fn take_from_the_back_and_with_fill() {
    let fill = Fill::none();
    let (_, d) = unwrap_num(num_list(&[-2]).take(num_list(&[1, 2, 3]), &fill).unwrap());
    assert_eq!(d, vec![2, 3]);
    let err = num_list(&[5]).take(num_list(&[1, 2, 3]), &fill).unwrap_err();
    assert_eq!(err, ArrayError::TakeTooFar { taking: 5, row_count: 3 });
    let (s, d) = unwrap_num(num_list(&[5]).take(num_list(&[1, 2, 3]), &Fill::with_num(0)).unwrap());
    assert_eq!(s, vec![5]);
    assert_eq!(d, vec![1, 2, 3, 0, 0]);
}

#[test]
fn drop_beyond_rows_empties() {
    let (s, d) = unwrap_num(num_list(&[7]).drop(num_list(&[1, 2, 3])).unwrap());
    assert_eq!(s, vec![0]);
    assert_eq!(d, Vec::<i64>::new());
}

#[test]
fn select_gathers_rows() {
    let idx = num_list(&[2, 0, 0, -1]);
    let v = num_list(&[10, 20, 30]);
    let (s, d) = unwrap_num(idx.select(&v, &Fill::none()).unwrap());
    assert_eq!(s, vec![4]);
    assert_eq!(d, vec![30, 10, 10, 30]);
}

#[test]
fn select_out_of_range_uses_fill_or_fails() {
    let idx = num_list(&[5]);
    let v = num_list(&[10, 20, 30]);
    let err = idx.select(&v, &Fill::none()).unwrap_err();
    assert_eq!(err, ArrayError::OutOfBounds { index: 5, len: 3, axis: 0 });
    let (_, d) = unwrap_num(idx.select(&v, &Fill::with_num(0)).unwrap());
    assert_eq!(d, vec![0]);
}

#[test]
fn unselect_after_select_restores() {
    let indices = vec![2isize, 0];
    let a = Array { shape: vec![3], data: vec![10i64, 20, 30] };
    let picked = a.select(&indices, None).unwrap();
    assert_eq!(picked.data, vec![30, 10]);
    let restored = picked.unselect(false, &indices, a).unwrap();
    assert_eq!(restored.data, vec![10, 20, 30]);
}

#[test]
fn unselect_writes_edited_rows_back() {
    let indices = vec![1isize];
    let edited = Array { shape: vec![1], data: vec![99i64] };
    let target = Array { shape: vec![3], data: vec![10i64, 20, 30] };
    let out = edited.unselect(false, &indices, target).unwrap();
    assert_eq!(out.data, vec![10, 99, 30]);
}

#[test]
fn unpick_after_pick_restores() {
    let index = vec![1isize];
    let a = Array { shape: vec![2, 2], data: vec![1i64, 2, 3, 4] };
    let picked = a.pick_single(&index, None).unwrap();
    assert_eq!(picked.shape, vec![2]);
    assert_eq!(picked.data, vec![3, 4]);
    let restored = picked.unpick_single(&index, a).unwrap();
    assert_eq!(restored.data, vec![1, 2, 3, 4]);
}

#[test]
fn unpick_writes_edited_cell_back() {
    let index = vec![0isize, 1];
    let edited = Array { shape: vec![], data: vec![42i64] };
    let target = Array { shape: vec![2, 2], data: vec![1i64, 2, 3, 4] };
    let out = edited.unpick_single(&index, target).unwrap();
    assert_eq!(out.data, vec![1, 42, 3, 4]);
}

#[test]
fn untake_and_undrop_splice_back() {
    let index = vec![2isize];
    let edited = Array { shape: vec![2], data: vec![8i64, 9] };
    let target = Array { shape: vec![4], data: vec![1i64, 2, 3, 4] };
    let out = edited.untake(&index, target).unwrap();
    assert_eq!(out.data, vec![8, 9, 3, 4]);

    let edited = Array { shape: vec![2], data: vec![8i64, 9] };
    let target = Array { shape: vec![4], data: vec![1i64, 2, 3, 4] };
    let out = edited.undrop(&index, target).unwrap();
    assert_eq!(out.data, vec![1, 2, 8, 9]);
}

#[test]
fn unreshape_and_unrerank_restore_shape() {
    let mut a = Array { shape: vec![6], data: vec![1i64, 2, 3, 4, 5, 6] };
    a.unreshape(&vec![2, 3]).unwrap();
    assert_eq!(a.shape, vec![2, 3]);
    let err = a.unreshape(&vec![4]).unwrap_err();
    assert_eq!(err, ArrayError::UnreshapeCountMismatch { old_count: 4, new_count: 6 });

    let mut b = Array { shape: vec![4, 2], data: vec![0i64; 8] };
    b.unrerank(-2, &vec![2, 2, 2]).unwrap();
    assert_eq!(b.shape, vec![2, 2, 2]);
}

#[test]
fn unrerank_rejects_a_count_mismatch() {
    let mut b = Array { shape: vec![4, 2], data: vec![0i64; 8] };
    let err = b.unrerank(-2, &vec![3, 3, 3]).unwrap_err();
    assert_eq!(err, ArrayError::UnreshapeCountMismatch { old_count: 18, new_count: 8 });
    assert_eq!(b.shape, vec![4, 2]);
}

#[test]
fn value_unreshape_rejects_the_scalar_form() {
    let mut v = num_array(&[2, 3], &[1, 2, 3, 4, 5, 6]);
    let err = v.unreshape(&num_scalar(3)).unwrap_err();
    assert_eq!(err, ArrayError::ScalarUnreshape);

    let mut v = num_array(&[2, 3], &[1, 2, 3, 4, 5, 6]);
    v.unreshape(&num_list(&[6])).unwrap();
    let (s, d) = unwrap_num(v);
    assert_eq!(s, vec![6]);
    assert_eq!(d, vec![1, 2, 3, 4, 5, 6]);

    let mut v = num_array(&[2, 3], &[1, 2, 3, 4, 5, 6]);
    let err = v.unreshape(&num_list(&[4])).unwrap_err();
    assert_eq!(err, ArrayError::UnreshapeCountMismatch { old_count: 4, new_count: 6 });
}

#[test]
fn value_unpick_batched_round_trip() {
    let index = num_array(&[2, 1], &[0, 2]);
    let from = num_list(&[10, 20, 30]);
    let picked = index.pick(&from, &Fill::none()).unwrap();
    let restored = picked.unpick(&index, num_list(&[10, 20, 30])).unwrap();
    let (s, d) = unwrap_num(restored);
    assert_eq!(s, vec![3]);
    assert_eq!(d, vec![10, 20, 30]);

    let edited = num_list(&[7, 9]);
    let written = edited.unpick(&index, num_list(&[10, 20, 30])).unwrap();
    let (_, d) = unwrap_num(written);
    assert_eq!(d, vec![7, 20, 9]);
}

#[test]
fn value_unpick_rejects_duplicate_index_rows() {
    let index = num_array(&[2, 1], &[1, 1]);
    let edited = num_list(&[7, 9]);
    let err = edited.unpick(&index, num_list(&[10, 20, 30])).unwrap_err();
    assert_eq!(err, ArrayError::DuplicateIndices);

    // A positive index and its negative alias resolve to the same row.
    let index = num_array(&[2, 1], &[0, -3]);
    let edited = num_list(&[7, 9]);
    let err = edited.unpick(&index, num_list(&[10, 20, 30])).unwrap_err();
    assert_eq!(err, ArrayError::DuplicateIndices);
}

#[test]
fn member_of_itself_is_all_true() {
    let a = num_array(&[3, 2], &[1, 2, 3, 4, 5, 6]);
    let b = num_array(&[3, 2], &[1, 2, 3, 4, 5, 6]);
    let (s, d) = unwrap_byte(a.member(&b).unwrap());
    assert_eq!(s, vec![3]);
    assert_eq!(d, vec![1, 1, 1]);
}

#[test]
fn member_mixed_numeric_types_promote() {
    let a = num_list(&[2, 9]);
    let b = Value::Byte(Array::list(vec![1u8, 2, 3]));
    let (_, d) = unwrap_byte(a.member(&b).unwrap());
    assert_eq!(d, vec![1, 0]);
}

#[test]
fn member_rejects_unrelated_types() {
    let a = num_list(&[1]);
    let b = Value::Char(Array::list(vec!['a']));
    let err = a.member(&b).unwrap_err();
    assert_eq!(err, ArrayError::TypeMismatch { a: TypeTag::Num, b: TypeTag::Char });
}

#[test]
fn index_of_unique_rows_is_the_identity() {
    let a = num_array(&[3, 2], &[1, 2, 3, 4, 5, 6]);
    let b = num_array(&[3, 2], &[1, 2, 3, 4, 5, 6]);
    let (s, d) = unwrap_num(a.index_of(&b).unwrap());
    assert_eq!(s, vec![3]);
    assert_eq!(d, vec![0, 1, 2]);
}

#[test]
fn progressive_index_of_consumes_positions() {
    let queries = num_list(&[2, 2, 2]);
    let target = num_list(&[1, 2, 2]);
    let (_, plain) = unwrap_num(queries.index_of(&target).unwrap());
    assert_eq!(plain, vec![1, 1, 1]);
    let (_, prog) = unwrap_num(queries.progressive_index_of(&target).unwrap());
    assert_eq!(prog, vec![1, 2, 3]);
}

#[test]
fn rotate_rank_error_names_both() {
    let by = num_list(&[1, 2]);
    let err = by.rotate(num_list(&[1, 2, 3]), &Fill::none()).unwrap_err();
    assert_eq!(err, ArrayError::RotateRank { rank: 1, offsets: 2 });
}

#[test]
fn windows_error_cases() {
    let err = num_list(&[0]).windows(&num_list(&[1, 2])).unwrap_err();
    assert_eq!(err, ArrayError::WindowSizeZero);
    let err = num_list(&[1, 1]).windows(&num_list(&[1, 2])).unwrap_err();
    assert_eq!(err, ArrayError::WindowRank { rank: 1, sizes: 2 });
    let err = num_list(&[4]).windows(&num_list(&[1, 2])).unwrap_err();
    assert_eq!(err, ArrayError::WindowTooLarge { size: 4, dim: 2 });
}

#[test]
fn windows_negative_size_counts_from_the_end() {
    let (s, d) = unwrap_num(num_list(&[-1]).windows(&num_list(&[1, 2, 3])).unwrap());
    // A size of -1 resolves to the full axis: one window of three cells.
    assert_eq!(s, vec![1, 3]);
    assert_eq!(d, vec![1, 2, 3]);
}

#[test]
fn find_without_fill_degrades_to_all_zeros() {
    let needle = num_array(&[2, 2], &[1, 2, 3, 4]);
    let hay = num_list(&[1, 2, 3]);
    let (s, d) = unwrap_byte(needle.find(&hay, &Fill::none()).unwrap());
    assert_eq!(s, vec![3]);
    assert_eq!(d, vec![0, 0, 0]);
}

#[test]
fn span_and_token_accessors() {
    let a = CodeSpan {
        start: Loc { char_pos: 0, byte_pos: 0, line: 1, col: 1 },
        end: Loc { char_pos: 2, byte_pos: 2, line: 1, col: 3 },
    };
    let b = CodeSpan {
        start: Loc { char_pos: 4, byte_pos: 4, line: 1, col: 5 },
        end: Loc { char_pos: 6, byte_pos: 6, line: 1, col: 7 },
    };
    let merged = a.merge(b);
    assert_eq!(merged.start.char_pos, 0);
    assert_eq!(merged.end.char_pos, 6);

    let sp = Span::Code(a).sp(Token::Char('x'));
    assert_eq!(sp.value.as_char(), Some('x'));
    assert!(sp.value.as_glyph().is_none());
    let t = Token::Glyph(Primitive::Rotate);
    assert_eq!(t.as_glyph(), Some(Primitive::Rotate));
    let _ = Simple::OpenParen;

    assert!(uiua_core::lex::is_basically_alphabetic('a'));
    assert!(!uiua_core::lex::is_basically_alphabetic('1'));
    assert!(!uiua_core::lex::is_custom_glyph('z'));
}

#[test]
fn cow_slice_modify() {
    let mut slice = CowSlice::from_vec(vec![1, 2, 3]);
    slice.push(4);
    assert_eq!(slice.to_vec(), vec![1, 2, 3, 4]);

    let mut sub = slice.slice(1, 3);
    sub.push(5);
    assert_eq!(slice.to_vec(), vec![1, 2, 3, 4]);
    assert_eq!(sub.to_vec(), vec![2, 3, 5]);
}

#[test]
fn cow_slice_deref_mut() {
    let mut slice = CowSlice::from_vec(vec![1, 2, 3, 4]);
    slice.set(1, 7);
    assert_eq!(slice.to_vec(), vec![1, 7, 3, 4]);

    let mut sub = slice.slice(1, 3);
    sub.set(1, 5);
    assert_eq!(slice.to_vec(), vec![1, 7, 3, 4]);
    assert_eq!(sub.to_vec(), vec![7, 5]);
}

#[test]
fn cow_slice_split_off() {
    let mut slice = CowSlice::from_vec(vec![1, 2, 3, 4]);
    let tail = slice.split_off(2);
    assert_eq!(slice.to_vec(), vec![1, 2]);
    assert_eq!(tail.to_vec(), vec![3, 4]);
}

#[test]
fn unselect_rejects_duplicate_indices() {
    let indices = vec![1isize, -2];
    let edited = Array { shape: vec![2], data: vec![8i64, 9] };
    let target = Array { shape: vec![3], data: vec![10i64, 20, 30] };
    let err = edited.unselect(false, &indices, target).unwrap_err();
    assert_eq!(err, ArrayError::DuplicateIndices);
}

#[test]
fn value_untake_and_undrop_splice_back() {
    let index = num_list(&[2]);
    let edited = num_list(&[8, 9]);
    let out = edited.untake(&index, num_list(&[1, 2, 3, 4])).unwrap();
    let (_, d) = unwrap_num(out);
    assert_eq!(d, vec![8, 9, 3, 4]);

    let edited = num_list(&[8, 9]);
    let out = edited.undrop(&index, num_list(&[1, 2, 3, 4])).unwrap();
    let (_, d) = unwrap_num(out);
    assert_eq!(d, vec![1, 2, 8, 9]);

    let edited = num_list(&[8, 9, 9]);
    let err = edited.untake(&index, num_list(&[1, 2, 3, 4])).unwrap_err();
    assert_eq!(err, ArrayError::UndoShapeChanged);
}

#[test]
fn value_unkeep_restores_and_rejects_scalars() {
    let counts = num_list(&[1, 0, 1]);
    let kept = num_list(&[4, 6]);
    let out = counts.unkeep(kept, num_list(&[4, 5, 6])).unwrap();
    let (s, d) = unwrap_num(out);
    assert_eq!(s, vec![3]);
    assert_eq!(d, vec![4, 5, 6]);

    let scalar_counts = num_scalar(1);
    let kept = num_list(&[4]);
    let err = scalar_counts.unkeep(kept, num_list(&[4])).unwrap_err();
    assert_eq!(err, ArrayError::ScalarUnkeep);

    let counts = num_list(&[2, 1, 0]);
    let kept = num_list(&[4, 4, 5]);
    let err = counts.unkeep(kept, num_list(&[4, 5, 6])).unwrap_err();
    assert_eq!(err, ArrayError::NonBooleanUnkeep);
}

#[test]
fn value_unselect_writes_back_and_rejects_ambiguity() {
    let index = num_list(&[1]);
    let edited = num_list(&[99]);
    let out = edited.unselect(&index, num_list(&[10, 20, 30])).unwrap();
    let (_, d) = unwrap_num(out);
    assert_eq!(d, vec![10, 99, 30]);

    let index = num_list(&[1, -2]);
    let edited = num_list(&[7, 8]);
    let err = edited.unselect(&index, num_list(&[10, 20, 30])).unwrap_err();
    assert_eq!(err, ArrayError::DuplicateIndices);

    let index = num_array(&[2, 1], &[0, 1]);
    let edited = num_list(&[7, 8]);
    let err = edited.unselect(&index, num_list(&[10, 20, 30])).unwrap_err();
    assert_eq!(err, ArrayError::UndoMultiSelect);
}

#[test]
fn rotate_depth_turns_each_row() {
    let mut a = Array { shape: vec![2, 3], data: vec![1i64, 2, 3, 4, 5, 6] };
    a.rotate_depth(&vec![2], &vec![1, -1], 1, 1).unwrap();
    assert_eq!(a.shape, vec![2, 3]);
    assert_eq!(a.data, vec![2, 3, 1, 6, 4, 5]);
}

#[test]
fn rotate_depth_broadcasts_the_offsets() {
    let mut a = Array { shape: vec![2, 3], data: vec![1i64, 2, 3, 4, 5, 6] };
    a.rotate_depth(&vec![], &vec![1], 1, 0).unwrap();
    assert_eq!(a.shape, vec![2, 3]);
    assert_eq!(a.data, vec![2, 3, 1, 5, 6, 4]);
}

#[test]
fn rotate_depth_rejects_misaligned_prefixes() {
    let mut a = Array { shape: vec![2, 3], data: vec![1i64, 2, 3, 4, 5, 6] };
    let err = a.rotate_depth(&vec![3], &vec![1, 0, 2], 1, 1).unwrap_err();
    assert_eq!(err, ArrayError::PrefixMismatch);
}

#[test]
fn align_depths_drops_leading_unit_axes() {
    let mut a = Array { shape: vec![1, 2], data: vec![1i64, 2] };
    let mut bs = vec![2usize];
    let mut bd = vec![1isize, 0];
    let dep = a.align_depths(2, &mut bs, &mut bd, 1).unwrap();
    assert_eq!(dep, 1);
    assert_eq!(a.shape, vec![2]);
    assert_eq!(bs, vec![2]);
    assert_eq!(bd, vec![1, 0]);
}

#[test]
fn value_rotate_depth_turns_rows_and_promotes() {
    let by = num_list(&[1, -1]);
    let a = num_array(&[2, 3], &[1, 2, 3, 4, 5, 6]);
    let out = by.rotate_depth(a, 1, 1, &Fill::none()).unwrap();
    let (s, d) = unwrap_num(out);
    assert_eq!(s, vec![2, 3]);
    assert_eq!(d, vec![2, 3, 1, 6, 4, 5]);

    let by = num_list(&[1, -1]);
    let bytes = Value::Byte(Array { shape: vec![2, 3], data: vec![1u8, 2, 3, 4, 5, 6] });
    let out = by.rotate_depth(bytes, 1, 1, &Fill::with_num(0)).unwrap();
    let (_, d) = unwrap_num(out);
    assert_eq!(d, vec![2, 3, 1, 6, 4, 5]);
}
