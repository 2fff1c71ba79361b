use simcore::memory_buffer::{MemoryBuffer, HEADER_CELLS, MATRIX_CELLS};

#[test]
fn empty_buffer_holds_the_count_cell() {
    let buffer: MemoryBuffer<f32, 8> = MemoryBuffer::empty();
    assert_eq!(buffer.len(), 1);
    assert_eq!(buffer.cells(), &[0.0]);
}

#[test]
fn scalar_record_is_handle_size_block_variable_value() {
    let mut buffer: MemoryBuffer<f32, 16> = MemoryBuffer::empty();
    buffer.add_float(7.0, 2.0, 3.0, 0.5);
    assert_eq!(buffer.len(), 1 + HEADER_CELLS + 1);
    assert_eq!(buffer.cells(), &[0.0, 7.0, 1.0, 2.0, 3.0, 0.5]);
}

#[test]
fn matrix_record_is_header_then_rows() {
    let mut buffer: MemoryBuffer<u32, 32> = MemoryBuffer::empty();
    let matrix = [[10, 11, 12, 13], [20, 21, 22, 23], [30, 31, 32, 33], [40, 41, 42, 43]];
    buffer.add_matrix(5, 8, 9, &matrix);
    assert_eq!(buffer.len(), 1 + HEADER_CELLS + MATRIX_CELLS as usize);
    assert_eq!(
        buffer.cells(),
        &[0, 5, 16, 8, 9, 10, 11, 12, 13, 20, 21, 22, 23, 30, 31, 32, 33, 40, 41, 42, 43]
    );
}

#[test]
fn count_is_written_on_request_only() {
    let mut buffer: MemoryBuffer<f32, 32> = MemoryBuffer::empty();
    buffer.add_float(1.0, 0.0, 1.0, 1.0);
    buffer.add_float(2.0, 0.0, 1.0, 0.0);
    assert_eq!(buffer.cells()[0], 0.0);
    assert_eq!(buffer.record_count(), 2);
    buffer.update_length();
    assert_eq!(buffer.cells()[0], 2.0);
    assert_eq!(buffer.cells(), &[2.0, 1.0, 1.0, 0.0, 1.0, 1.0, 2.0, 1.0, 0.0, 1.0, 0.0]);
    assert_eq!(buffer.len(), 11);
}

#[test]
fn count_is_the_number_of_records_not_of_cells() {
    let mut buffer: MemoryBuffer<u32, 64> = MemoryBuffer::empty();
    let matrix = [[1, 2, 3, 4], [5, 6, 7, 8], [9, 10, 11, 12], [13, 14, 15, 16]];
    buffer.add_matrix(7, 0, 0, &matrix);
    buffer.update_length();
    assert_eq!(buffer.cells()[0], 1);
    assert_eq!(buffer.len(), 21);
    buffer.add_float(7, 0, 1, 1);
    buffer.update_length();
    assert_eq!(buffer.cells()[0], 2);
    assert_eq!(buffer.len(), 26);
    assert_eq!(&buffer.cells()[1..5], &[7, 16, 0, 0]);
    assert_eq!(&buffer.cells()[21..], &[7, 1, 0, 1, 1]);
}

#[test]
fn records_follow_each_other() {
    let mut buffer: MemoryBuffer<f32, 64> = MemoryBuffer::empty();
    let identity =
        [[1.0, 0.0, 0.0, 0.0], [0.0, 1.0, 0.0, 0.0], [0.0, 0.0, 1.0, 0.0], [0.0, 0.0, 0.0, 1.0]];
    buffer.add_matrix(3.0, 0.0, 0.0, &identity);
    buffer.add_float(3.0, 0.0, 1.0, 1.0);
    buffer.update_length();
    let cells = buffer.cells();
    assert_eq!(cells.len(), 26);
    assert_eq!(cells[0], 2.0);
    assert_eq!(&cells[1..5], &[3.0, 16.0, 0.0, 0.0]);
    assert_eq!(&cells[5..9], &[1.0, 0.0, 0.0, 0.0]);
    assert_eq!(&cells[17..21], &[0.0, 0.0, 0.0, 1.0]);
    assert_eq!(&cells[21..], &[3.0, 1.0, 0.0, 1.0, 1.0]);
}

#[test]
fn reset_leaves_the_count_cell_at_zero() {
    let mut buffer: MemoryBuffer<f32, 16> = MemoryBuffer::empty();
    buffer.add_float(1.0, 0.0, 0.0, 9.0);
    buffer.update_length();
    assert_eq!(buffer.cells()[0], 1.0);
    buffer.buffer_reset();
    assert_eq!(buffer.cells(), &[0.0]);
    assert_eq!(buffer.record_count(), 0);
    buffer.add_float(4.0, 0.0, 0.0, 2.0);
    assert_eq!(buffer.cells(), &[0.0, 4.0, 1.0, 0.0, 0.0, 2.0]);
    buffer.update_length();
    assert_eq!(buffer.cells(), &[1.0, 4.0, 1.0, 0.0, 0.0, 2.0]);
}

#[test]
fn update_length_with_no_record_writes_zero() {
    let mut buffer: MemoryBuffer<u16, 4> = MemoryBuffer::empty();
    buffer.update_length();
    assert_eq!(buffer.cells(), &[0]);
}

#[test]
fn buffer_fills_to_its_capacity() {
    let mut buffer: MemoryBuffer<u16, 6> = MemoryBuffer::empty();
    buffer.add_float(9, 8, 7, 6);
    buffer.update_length();
    assert_eq!(buffer.len(), 6);
    assert_eq!(buffer.cells(), &[1, 9, 1, 8, 7, 6]);
}
