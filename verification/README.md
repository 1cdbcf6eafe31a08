# pure_onnx_ocr_sync

A synchronous OCR pipeline (PP-OCRv5 detection, orientation and recognition
models run with tract), split into a verified core and the code around it.

- `src/` is the library, checked by Verus: recognition-dictionary parsing,
  greedy CTC decoding over score keys, the choice of page and text-line
  orientation, detection-scale planning and the multi-scale search, the
  contrast stretch used on blurry frames, contour filtering and rings,
  clamping detected boxes into the image, splitting a band into text lines,
  and the checks and crop plans of recognition preprocessing.
- `app/` holds what the library hands off: model loading and inference,
  image decoding and resizing, tensor building, floating-point geometry
  (polygon offsetting, scaling), and the engine and its builder.
- `tests/` exercises the library's public functions.
