# Emcyphal

A Cyphal/CAN protocol stack for embedded nodes. Its logic is verified with Verus: every function of
the library states in its contract what it returns and changes, and the promises that span several
functions are public proof functions whose names begin with `law_`.

## Layout

- `src/` is the library.
  - `priority`, `ids`, `time`, `frame` and `format` hold the basic types and the transfer format.
  - `encoding` and `data_types` serialize messages and requests.
  - `buffer` splits transfers into frames, and gathers frames into transfers.
  - `registry` holds the endpoints of a node, and tells the driver which frames to accept.
  - `link`, `node`, `endpoint` and `socket` connect drivers, nodes and applications.
  - `stm32` holds the logic of two drivers: identifiers, filters, register fields, timestamps and
    the schedule of the transmit buffers.
  - `utils` holds collections.
- `app/` waits, locks and accesses the hardware. It contains no decisions of the protocol.
- `tests/` runs the library.

What the library has from other crates goes through functions marked `external_body`. Their doc
comments say what is believed of the outside function.
